use tuning_studio::cmd;
use tuning_studio::wire::{
    crc16, Decoder, Header, Overflow, Reader, Status, Writer, MAGIC, MAX_FRAME, MAX_PAYLOAD,
};

#[test]
fn crc_matches_the_mcrf4xx_check_value() {
    assert_eq!(crc16(b"123456789"), 0x6f91);
}

/// The same bytes are asserted by the host's codec tests.
#[test]
fn a_hello_request_encodes_to_the_shared_vector() {
    let out = Writer::new(
        MAX_FRAME,
        Header {
            cmd: cmd::HELLO,
            flags: 0,
            seq: 0x0102,
        },
    )
    .unwrap()
    .finish();
    let crc = crc16(&[0xa5, 0x01, 0x01, 0x00, 0x02, 0x01, 0x00, 0x00]).to_le_bytes();
    assert_eq!(
        out,
        [0xa5, 0x01, 0x01, 0x00, 0x02, 0x01, 0x00, 0x00, crc[0], crc[1]]
    );
}

fn frame(cmd: u8, seq: u16, payload: &[u8]) -> Vec<u8> {
    let mut w = Writer::new(MAX_FRAME, Header { cmd, flags: 0, seq }).unwrap();
    w.bytes(payload).unwrap();
    w.finish()
}

fn decode_all(d: &mut Decoder, bytes: &[u8]) -> Vec<(u8, u16, usize)> {
    d.feed(bytes)
        .iter()
        .map(|(h, p)| (h.cmd, h.seq, p.len()))
        .collect()
}

#[test]
fn frames_split_across_feeds_are_reassembled() {
    let bytes = frame(cmd::READ, 7, &[1, 2, 3]);
    let mut d = Decoder::new();
    assert_eq!(decode_all(&mut d, &bytes[..5]).len(), 0);
    let got = decode_all(&mut d, &bytes[5..]);
    assert_eq!((got.len(), got[0]), (1, (cmd::READ, 7, 3)));
}

#[test]
fn noise_and_a_corrupt_frame_are_skipped() {
    let good = frame(cmd::HELLO, 1, &[]);
    let mut bad = frame(cmd::READ, 2, &[9; 10]);
    bad[9] ^= 0xff;
    let mut stream = vec![0x00, 0xa5, 0x13];
    stream.extend_from_slice(&bad);
    stream.extend_from_slice(&good);
    let mut d = Decoder::new();
    let got = decode_all(&mut d, &stream);
    assert_eq!((got.len(), got[0]), (1, (cmd::HELLO, 1, 0)));
    assert!(d.bad_frames() >= 1);
}

#[test]
fn a_payload_past_the_limit_does_not_fit() {
    let mut w = Writer::new(
        MAX_FRAME + 16,
        Header {
            cmd: 1,
            flags: 0,
            seq: 0,
        },
    )
    .unwrap();
    assert!(w.bytes(&[0; MAX_PAYLOAD]).is_ok());
    assert_eq!(w.u8(0).err(), Some(Overflow));
}

#[test]
fn a_reader_stops_at_the_end() {
    let mut r = Reader::new(&[1, 0, 2]);
    assert_eq!(r.u16(), Some(1));
    assert_eq!(r.u16(), None);
    assert_eq!(r.u8(), Some(2));
}

#[test]
fn feeding_in_pieces_gives_what_feeding_at_once_gives() {
    let mut stream = vec![MAGIC, 1, 2];
    stream.extend_from_slice(&frame(cmd::READ, 7, &[1, 2, 3]));
    stream.extend_from_slice(&frame(cmd::STATS, 8, &[]));
    let mut whole = Decoder::new();
    let at_once = decode_all(&mut whole, &stream);
    assert_eq!(at_once.len(), 2);
    let mut pieces = Decoder::new();
    let mut got = Vec::new();
    for b in &stream {
        got.extend(decode_all(&mut pieces, &[*b]));
    }
    assert_eq!(got, at_once);
    assert_eq!(pieces.bad_frames(), whole.bad_frames());
}

#[test]
fn a_writer_counts_patches_and_runs_out_of_room() {
    let header = Header {
        cmd: 2,
        flags: 1,
        seq: 3,
    };
    assert!(Writer::new(9, header).is_err());
    let mut w = Writer::new(MAX_FRAME, header).unwrap();
    w.u8(0).unwrap();
    w.u16(0x0201).unwrap();
    w.u32(0x0605_0403).unwrap();
    w.u64(0x0e0d_0c0b_0a09_0807).unwrap();
    w.patch_u8(0, 0xee);
    assert_eq!(w.payload_len(), 15);
    assert!(w.fits(MAX_PAYLOAD - 15) && !w.fits(MAX_PAYLOAD - 14));
    let out = w.finish();
    assert_eq!(&out[8..23], &[0xee, 1, 2, 3, 4, 5, 6, 7, 8, 9, 10, 11, 12, 13, 14]);
    let mut r = Reader::new(&[4, 0, 0, 0, 1, 2, 3, 4, 9]);
    assert_eq!(r.slot(), Some((4, 0x0403_0201)));
    assert_eq!(r.remaining(), 1);
    assert_eq!(r.slot(), None);
    assert_eq!(Status::Okay.code(), 0);
    assert_eq!(Status::UnknownCommand.code(), 2);
}

#[test]
fn a_crc_closes_and_finds_every_flipped_bit() {
    assert_eq!(crc16(&[]), 0xffff);
    let data: Vec<u8> = (0..40u8).map(|i| i.wrapping_mul(37)).collect();
    let crc = crc16(&data);
    let mut all = data.clone();
    all.extend(crc.to_le_bytes());
    assert_eq!(crc16(&all), 0);
    for at in 0..data.len() {
        for bit in 0..8 {
            let mut other = data.clone();
            other[at] ^= 1 << bit;
            assert_ne!(crc16(&other), crc);
        }
    }
}

#[test]
fn only_whole_frames_are_delivered() {
    let good = frame(0x10, 5, &[1, 2, 3]);
    for at in 0..good.len() {
        for bit in 0..8 {
            let mut bad = good.clone();
            bad[at] ^= 1 << bit;
            assert!(Decoder::new().feed(&bad).is_empty(), "{at} {bit}");
        }
    }
    let mut d = Decoder::new();
    let got = d.feed(&[&good[..], &[0xa5, 2, 0], &good[..]].concat());
    assert!(got.iter().all(|(h, p)| h.cmd == 0x10 && h.seq == 5 && p == &[1, 2, 3]));
    assert_eq!(got.len(), 2);
}
