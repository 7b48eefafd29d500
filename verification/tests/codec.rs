use lsb_stego::capacity::plan;
use lsb_stego::codec::{embed, embed_planned, extract};
use lsb_stego::error::StegoError;
use lsb_stego::grid::{BitWidth, PixelGrid};

fn grid_of(width: u32, height: u32, value: u8) -> PixelGrid {
    let len = 3 * width as usize * height as usize;
    PixelGrid::new(width, height, vec![value; len]).unwrap()
}

fn patterned(width: u32, height: u32) -> PixelGrid {
    let len = 3 * width as usize * height as usize;
    let mut samples = Vec::with_capacity(len);
    for i in 0..len {
        samples.push(((i * 37 + 11) % 256) as u8);
    }
    PixelGrid::new(width, height, samples).unwrap()
}

fn width(bits: u8) -> BitWidth {
    BitWidth::new(bits).unwrap()
}

#[test]
fn hi_in_ten_by_ten_zero_grid() {
    let grid = grid_of(10, 10, 0);
    assert_eq!(grid.channel_count(), 300);
    let k = plan(2, grid.channel_count()).unwrap();
    assert_eq!(k.get(), 1);
    let carrier = embed(&grid, b"Hi", k).unwrap();
    let back = extract(&carrier, k).unwrap();
    assert_eq!(back, vec![0x48, 0x69]);
    assert_eq!(back.len(), 2);
}

#[test]
fn hi_is_laid_out_bit_by_bit() {
    let grid = grid_of(10, 10, 0);
    let carrier = embed(&grid, b"Hi", width(1)).unwrap();
    let ones = [25usize, 35, 38, 40, 43, 45, 46];
    for (c, &sample) in carrier.samples().iter().enumerate() {
        let expected = if ones.contains(&c) { 1 } else { 0 };
        assert_eq!(sample, expected, "channel {}", c);
    }
}

#[test]
fn embedding_keeps_high_bits_and_later_channels() {
    let grid = grid_of(10, 10, 0xff);
    let carrier = embed(&grid, b"Hi", width(2)).unwrap();
    let samples = carrier.samples();
    // 48 framed bits at 2 bits per channel take the first 24 channels.
    for c in 0..24 {
        assert_eq!(samples[c] & 0xfc, 0xfc, "channel {}", c);
    }
    for c in 24..300 {
        assert_eq!(samples[c], 0xff, "channel {}", c);
    }
    // Byte 3 of the frame is 0x02: stream bit 25 is bit 1 of channel 12.
    assert_eq!(samples[12], 0xfe);
    assert_eq!(samples[0], 0xfc);
    assert_eq!(extract(&carrier, width(2)).unwrap(), b"Hi".to_vec());
}

#[test]
fn embedding_leaves_the_given_grid_alone() {
    let grid = patterned(6, 5);
    let before = grid.samples().to_vec();
    let carrier = embed(&grid, b"abc", width(3)).unwrap();
    assert_eq!(grid.samples(), &before[..]);
    assert_eq!(carrier.width(), 6);
    assert_eq!(carrier.height(), 5);
    assert_ne!(carrier.samples(), &before[..]);
}

#[test]
fn round_trip_at_every_bit_width() {
    let grid = patterned(16, 12);
    let payload: Vec<u8> = (0..60u32).map(|i| (i * 7 + 3) as u8).collect();
    for bits in 1..=8u8 {
        let k = width(bits);
        let carrier = embed(&grid, &payload, k).unwrap();
        assert_eq!(extract(&carrier, k).unwrap(), payload, "bit width {}", bits);
    }
}

#[test]
fn round_trip_of_the_empty_payload() {
    let grid = patterned(4, 3);
    let carrier = embed(&grid, &[], width(1)).unwrap();
    assert_eq!(extract(&carrier, width(1)).unwrap(), Vec::<u8>::new());
}

#[test]
fn round_trip_fills_the_grid_to_the_last_bit() {
    // 4 x 2 pixels are 24 channels: at 8 bits 24 bytes, 4 of them the prefix.
    let grid = patterned(4, 2);
    let payload = vec![0xa5u8; 20];
    let carrier = embed(&grid, &payload, width(8)).unwrap();
    assert_eq!(extract(&carrier, width(8)).unwrap(), payload);
    let too_long = vec![0xa5u8; 21];
    assert_eq!(embed(&grid, &too_long, width(8)).err(), Some(StegoError::CapacityExceeded));
}

#[test]
fn planned_width_is_the_capacity_boundary() {
    let grid = patterned(10, 10);
    for len in [0usize, 1, 33, 34, 70, 71, 72, 146, 147, 296] {
        let payload = vec![0x5au8; len];
        let k = plan(len as u32, grid.channel_count()).unwrap();
        let needed = (len + 4) * 8;
        assert!(k.get() as usize * 300 >= needed);
        assert!((k.get() as usize - 1) * 300 < needed);
        let carrier = embed(&grid, &payload, k).unwrap();
        assert_eq!(extract(&carrier, k).unwrap(), payload);
        if k.get() > 1 {
            let smaller = width(k.get() - 1);
            assert_eq!(embed(&grid, &payload, smaller).err(), Some(StegoError::CapacityExceeded));
        }
    }
}

#[test]
fn plan_rounds_up_and_not_beyond() {
    // 300 channels: 37 framed bytes are 296 bits, 38 are 304.
    assert_eq!(plan(33, 300).unwrap().get(), 1);
    assert_eq!(plan(34, 300).unwrap().get(), 2);
    // An exact multiple takes no extra bit: 75 framed bytes are 600 bits.
    assert_eq!(plan(71, 300).unwrap().get(), 2);
    assert_eq!(plan(72, 300).unwrap().get(), 3);
    assert_eq!(plan(296, 300).unwrap().get(), 8);
}

#[test]
fn plan_reports_insufficient_capacity() {
    assert_eq!(plan(297, 300), Err(StegoError::InsufficientCapacity));
    assert_eq!(plan(0, 3), Err(StegoError::InsufficientCapacity));
    assert_eq!(plan(u32::MAX, 300), Err(StegoError::InsufficientCapacity));
}

#[test]
fn plan_reports_a_grid_without_channels() {
    assert_eq!(plan(0, 0), Err(StegoError::DegenerateInput));
    assert_eq!(plan(10, 0), Err(StegoError::DegenerateInput));
}

#[test]
fn embed_planned_returns_the_width_to_extract_with() {
    let grid = patterned(10, 10);
    let payload = vec![7u8; 100];
    let (carrier, k) = embed_planned(&grid, &payload).unwrap();
    assert_eq!(k.get(), 3);
    assert_eq!(extract(&carrier, k).unwrap(), payload);
    assert_eq!(carrier.samples(), embed(&grid, &payload, k).unwrap().samples());
}

#[test]
fn embed_planned_fails_as_planning_does() {
    let grid = patterned(2, 2);
    assert_eq!(embed_planned(&grid, &[0u8; 9]).err(), Some(StegoError::InsufficientCapacity));
    let empty = PixelGrid::new(0, 0, Vec::new()).unwrap();
    assert_eq!(embed_planned(&empty, b"x").err(), Some(StegoError::DegenerateInput));
}

#[test]
fn embed_reports_capacity_exceeded() {
    let grid = grid_of(10, 10, 0);
    // 34 + 4 bytes are 304 bits, four more than 300 channels offer at 1 bit.
    let payload = vec![1u8; 34];
    assert_eq!(embed(&grid, &payload, width(1)).err(), Some(StegoError::CapacityExceeded));
    assert!(embed(&grid, &payload, width(2)).is_ok());
}

#[test]
fn embed_and_extract_report_a_grid_without_pixels() {
    let empty = PixelGrid::new(0, 5, Vec::new()).unwrap();
    assert_eq!(embed(&empty, b"Hi", width(1)).err(), Some(StegoError::DegenerateInput));
    assert_eq!(extract(&empty, width(1)), Err(StegoError::DegenerateInput));
}

#[test]
fn extract_reports_a_truncated_stream() {
    // 3 pixels are 9 channels: 9 bits at width 1, 27 at width 3, 36 at width 4.
    let grid = grid_of(3, 1, 0);
    assert_eq!(extract(&grid, width(1)), Err(StegoError::TruncatedStream));
    assert_eq!(extract(&grid, width(3)), Err(StegoError::TruncatedStream));
    assert_eq!(extract(&grid, width(4)), Ok(Vec::new()));
}

#[test]
fn extract_reports_length_overflow() {
    let grid = grid_of(4, 4, 0xff);
    assert_eq!(extract(&grid, width(1)), Err(StegoError::LengthOverflow));
    assert_eq!(extract(&grid, width(8)), Err(StegoError::LengthOverflow));
    // A prefix that announces one byte more than the grid holds.
    let small = grid_of(2, 2, 0);
    let carrier = embed(&small, &[9u8; 8], width(8)).unwrap();
    let mut samples = carrier.into_samples();
    samples[3] = 9;
    let forged = PixelGrid::new(2, 2, samples).unwrap();
    assert_eq!(extract(&forged, width(8)), Err(StegoError::LengthOverflow));
}

#[test]
fn extract_reads_no_further_than_the_announced_length() {
    let grid = grid_of(10, 10, 0);
    let carrier = embed(&grid, b"Hi", width(1)).unwrap();
    let mut samples = carrier.into_samples();
    for s in samples.iter_mut().skip(48) {
        *s = 0xff;
    }
    let noisy = PixelGrid::new(10, 10, samples).unwrap();
    assert_eq!(extract(&noisy, width(1)).unwrap(), b"Hi".to_vec());
}

#[test]
fn mismatched_bit_width_corrupts_or_rejects() {
    let payloads: [&[u8]; 3] = [b"12345678", b"steganography", b"The quick brown fox jumps over the lazy dog"];
    for grid in [grid_of(20, 20, 0), grid_of(20, 20, 0xff), patterned(20, 20)] {
        for payload in payloads {
            for used in 1..=8u8 {
                let carrier = embed(&grid, payload, width(used)).unwrap();
                for other in 1..=8u8 {
                    if other == used {
                        continue;
                    }
                    match extract(&carrier, width(other)) {
                        Ok(read) => assert_ne!(read, payload.to_vec(), "embedded at {} read at {}", used, other),
                        Err(e) => assert!(matches!(e, StegoError::LengthOverflow | StegoError::TruncatedStream)),
                    }
                }
            }
        }
    }
}
