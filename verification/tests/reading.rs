use varmint::read::read_slice;
use varmint::reading::{Fetched, Progress, Reading};
use varmint::{Error, ReadVarInt};

fn drive(optional: bool, events: &[Fetched]) -> Progress {
    let mut reading = Reading::new(optional);
    for &fetched in events {
        match reading.resume(fetched) {
            Progress::Pending => {}
            done => return done,
        }
    }
    Progress::Pending
}

fn one_byte_per_step(bytes: &[u8]) -> Vec<Fetched> {
    let mut events = vec![Fetched::NotReady];
    for &byte in bytes {
        events.push(Fetched::Byte(byte));
        events.push(Fetched::NotReady);
    }
    events.push(Fetched::End);
    events
}

#[test]
fn reading_waits_and_loses_nothing() {
    let mut reading = Reading::new(false);
    assert_eq!(reading.resume(Fetched::NotReady), Progress::Pending);
    assert_eq!(reading.resume(Fetched::Byte(0xB5)), Progress::Pending);
    assert_eq!(reading.resume(Fetched::NotReady), Progress::Pending);
    assert_eq!(reading.resume(Fetched::NotReady), Progress::Pending);
    assert_eq!(reading.resume(Fetched::Byte(0xFF)), Progress::Pending);
    assert_eq!(reading.resume(Fetched::Byte(0xAC)), Progress::Pending);
    assert_eq!(reading.resume(Fetched::NotReady), Progress::Pending);
    assert_eq!(reading.resume(Fetched::Byte(0x02)), Progress::Done(Ok(Some(0x4B3FB5))));
}

#[test]
fn reading_end_before_the_first_byte() {
    assert_eq!(drive(true, &[Fetched::End]), Progress::Done(Ok(None)));
    assert_eq!(drive(true, &[Fetched::NotReady, Fetched::End]), Progress::Done(Ok(None)));
    assert_eq!(drive(false, &[Fetched::End]), Progress::Done(Err(Error::Truncated)));
}

#[test]
fn reading_end_inside_a_value() {
    let events = [Fetched::Byte(0xFF), Fetched::NotReady, Fetched::End];
    assert_eq!(drive(true, &events), Progress::Done(Err(Error::Truncated)));
    assert_eq!(drive(false, &events), Progress::Done(Err(Error::Truncated)));
}

#[test]
fn reading_refuses_the_tenth_byte() {
    let mut bytes = vec![0xFFu8; 9];
    bytes.push(0x02);
    assert_eq!(drive(false, &one_byte_per_step(&bytes)), Progress::Done(Err(Error::LengthExceeded)));
    assert_eq!(drive(true, &one_byte_per_step(&bytes)), Progress::Done(Err(Error::LengthExceeded)));
}

#[test]
fn reading_is_pending_while_the_source_has_not_ended() {
    assert_eq!(drive(false, &[]), Progress::Pending);
    assert_eq!(drive(false, &[Fetched::NotReady, Fetched::Byte(0x80)]), Progress::Pending);
}

#[test]
fn reading_step_by_step_agrees_with_reading_in_one_go() {
    let sources: [&[u8]; 9] = [
        &[],
        &[0x00],
        &[0x01],
        &[0xAC, 0x02],
        &[0xB5, 0xFF, 0xAC, 0x02],
        &[0xFF],
        &[0xFF, 0xFF, 0xFF, 0xFF, 0xFF, 0xFF, 0xFF, 0xFF, 0x7F],
        &[0xFF, 0xFF, 0xFF, 0xFF, 0xFF, 0xFF, 0xFF, 0xFF, 0xFF, 0x01],
        &[0xFF, 0xFF, 0xFF, 0xFF, 0xFF, 0xFF, 0xFF, 0xFF, 0xFF, 0x02],
    ];
    for bytes in sources {
        let events = one_byte_per_step(bytes);
        let mut source = bytes;
        let in_one_go = match source.read_u64_varint() {
            Ok(value) => Ok(Some(value)),
            Err(e) => Err(e),
        };
        assert_eq!(drive(false, &events), Progress::Done(in_one_go));
        let mut source = bytes;
        assert_eq!(drive(true, &events), Progress::Done(source.try_read_u64_varint()));
    }
}

#[test]
fn reading_step_by_step_takes_the_bytes_of_reading_in_one_go() {
    let sources: [&[u8]; 7] = [
        &[],
        &[0x00, 0x01],
        &[0xAC, 0x02, 0xFF, 0xFF],
        &[0xFF],
        &[0xFF, 0xFF, 0xFF, 0xFF, 0xFF, 0xFF, 0xFF, 0xFF, 0x7F, 0x01],
        &[0xFF, 0xFF, 0xFF, 0xFF, 0xFF, 0xFF, 0xFF, 0xFF, 0xFF, 0x01, 0x01],
        &[0xFF, 0xFF, 0xFF, 0xFF, 0xFF, 0xFF, 0xFF, 0xFF, 0xFF, 0x02, 0x01],
    ];
    for bytes in sources {
        for optional in [false, true] {
            let mut reading = Reading::new(optional);
            let mut handed_over = 0;
            for fetched in one_byte_per_step(bytes) {
                if let Fetched::Byte(_) = fetched {
                    handed_over += 1;
                }
                if reading.resume(fetched) != Progress::Pending {
                    break;
                }
            }
            assert_eq!(handed_over, read_slice(bytes, optional).1);
        }
    }
}
