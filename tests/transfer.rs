use std::cell::Cell;

use file_backend::transfer::{
    read_fully, write_fully, ReadCursor, TransferError, TransferFailure, WriteCursor,
};

fn source() -> Vec<u8> {
    (0..50u8).map(|b| b.wrapping_mul(7).wrapping_add(1)).collect()
}

#[test]
fn short_reads_fill_the_whole_buffer() {
    let src = source();
    let calls = Cell::new(0usize);
    let r = read_fully(5, 20, |o: u64, m: usize| -> Result<Vec<u8>, String> {
        calls.set(calls.get() + 1);
        let at = o as usize;
        let n = m.min(3);
        Ok(src[at..at + n].to_vec())
    });
    assert_eq!(r, Ok(src[5..25].to_vec()));
    assert_eq!(calls.get(), 7);
}

#[test]
fn read_in_one_call_when_primitive_delivers_all() {
    let src = source();
    let calls = Cell::new(0usize);
    let r = read_fully(0, 50, |o: u64, m: usize| -> Result<Vec<u8>, String> {
        calls.set(calls.get() + 1);
        Ok(src[o as usize..o as usize + m].to_vec())
    });
    assert_eq!(r, Ok(src.clone()));
    assert_eq!(calls.get(), 1);
}

#[test]
fn read_of_nothing_makes_no_call() {
    let calls = Cell::new(0usize);
    let r = read_fully(7, 0, |_o: u64, _m: usize| -> Result<Vec<u8>, String> {
        calls.set(calls.get() + 1);
        Ok(Vec::new())
    });
    assert_eq!(r, Ok(Vec::new()));
    assert_eq!(calls.get(), 0);
}

#[test]
fn read_past_end_of_data_fails_instead_of_returning_short_buffer() {
    let src = source();
    let r = read_fully(40, 20, |o: u64, m: usize| -> Result<Vec<u8>, String> {
        let at = (o as usize).min(src.len());
        let end = (at + m).min(src.len());
        Ok(src[at..end].to_vec())
    });
    assert_eq!(r, Err(TransferFailure::Stopped(TransferError::NoProgress)));
}

#[test]
fn read_with_oversized_chunk_is_overrun() {
    let r = read_fully(0, 4, |_o: u64, m: usize| -> Result<Vec<u8>, String> {
        Ok(vec![9u8; m + 1])
    });
    assert_eq!(r, Err(TransferFailure::Stopped(TransferError::Overrun)));
}

#[test]
fn read_passes_primitive_error_on() {
    let r = read_fully(0, 4, |_o: u64, _m: usize| -> Result<Vec<u8>, String> {
        Err("device gone".to_string())
    });
    assert_eq!(r, Err(TransferFailure::Io("device gone".to_string())));
}

#[test]
fn read_span_beyond_largest_offset_is_refused() {
    let r = read_fully(u64::MAX - 2, 3, |_o: u64, m: usize| -> Result<Vec<u8>, String> {
        Ok(vec![0u8; m])
    });
    assert_eq!(r, Err(TransferFailure::Stopped(TransferError::OffsetOverflow)));
    let ok = read_fully(u64::MAX - 2, 2, |_o: u64, m: usize| -> Result<Vec<u8>, String> {
        Ok(vec![0u8; m])
    });
    assert_eq!(ok, Ok(vec![0u8; 2]));
}

#[test]
fn short_writes_write_all_data() {
    let file: std::cell::RefCell<Vec<u8>> = std::cell::RefCell::new(vec![0u8; 40]);
    let data: Vec<u8> = (1..=17u8).collect();
    let calls = Cell::new(0usize);
    let r = write_fully(10, &data, |o: u64, d: &[u8]| -> Result<usize, String> {
        calls.set(calls.get() + 1);
        let n = d.len().min(4);
        let at = o as usize;
        file.borrow_mut()[at..at + n].copy_from_slice(&d[..n]);
        Ok(n)
    });
    assert_eq!(r, Ok(()));
    assert_eq!(calls.get(), 5);
    let f = file.borrow();
    assert_eq!(&f[10..27], &data[..]);
    assert!(f[..10].iter().all(|b| *b == 0));
    assert!(f[27..].iter().all(|b| *b == 0));
}

#[test]
fn write_then_read_round_trip_through_short_primitives() {
    let file: std::cell::RefCell<Vec<u8>> = std::cell::RefCell::new(vec![0xAAu8; 64]);
    let data: Vec<u8> = (0..30u8).map(|b| b ^ 0x5A).collect();
    let w = write_fully(17, &data, |o: u64, d: &[u8]| -> Result<usize, String> {
        let n = d.len().min(7);
        let at = o as usize;
        file.borrow_mut()[at..at + n].copy_from_slice(&d[..n]);
        Ok(n)
    });
    assert_eq!(w, Ok(()));
    let r = read_fully(17, 30, |o: u64, m: usize| -> Result<Vec<u8>, String> {
        let at = o as usize;
        let n = m.min(5);
        Ok(file.borrow()[at..at + n].to_vec())
    });
    assert_eq!(r, Ok(data));
}

#[test]
fn write_that_stalls_is_no_progress() {
    let data = vec![1u8, 2, 3];
    let r = write_fully(0, &data, |_o: u64, d: &[u8]| -> Result<usize, String> {
        if d.len() == 3 {
            Ok(1)
        } else {
            Ok(0)
        }
    });
    assert_eq!(r, Err(TransferFailure::Stopped(TransferError::NoProgress)));
}

#[test]
fn write_reporting_too_much_is_overrun() {
    let data = vec![1u8, 2, 3];
    let r = write_fully(0, &data, |_o: u64, d: &[u8]| -> Result<usize, String> { Ok(d.len() + 1) });
    assert_eq!(r, Err(TransferFailure::Stopped(TransferError::Overrun)));
}

#[test]
fn write_passes_primitive_error_on() {
    let data = vec![1u8, 2, 3];
    let r = write_fully(0, &data, |_o: u64, _d: &[u8]| -> Result<usize, i32> { Err(28) });
    assert_eq!(r, Err(TransferFailure::Io(28)));
}

#[test]
fn write_span_beyond_largest_offset_is_refused() {
    let data = vec![1u8, 2, 3];
    let r = write_fully(u64::MAX, &data, |_o: u64, d: &[u8]| -> Result<usize, String> { Ok(d.len()) });
    assert_eq!(r, Err(TransferFailure::Stopped(TransferError::OffsetOverflow)));
}

#[test]
fn read_cursor_tracks_offsets_and_rejects_bad_chunks() {
    let mut c = ReadCursor::new(100, 6).unwrap();
    assert_eq!(c.next_offset(), 100);
    assert_eq!(c.remaining(), 6);
    assert_eq!(c.accept(&[1, 2]), Ok(()));
    assert_eq!(c.next_offset(), 102);
    assert_eq!(c.accept(&[]), Err(TransferError::NoProgress));
    assert_eq!(c.accept(&[3, 4, 5, 6, 7]), Err(TransferError::Overrun));
    assert_eq!(c.remaining(), 4);
    assert!(!c.is_complete());
    assert_eq!(c.accept(&[3, 4, 5, 6]), Ok(()));
    assert!(c.is_complete());
    assert_eq!(c.into_bytes(), vec![1, 2, 3, 4, 5, 6]);
}

#[test]
fn write_cursor_tracks_offsets_and_rejects_bad_counts() {
    let mut c = WriteCursor::new(8, 5).unwrap();
    assert_eq!(c.advance(0), Err(TransferError::NoProgress));
    assert_eq!(c.advance(2), Ok(()));
    assert_eq!(c.written(), 2);
    assert_eq!(c.next_offset(), 10);
    assert_eq!(c.advance(4), Err(TransferError::Overrun));
    assert_eq!(c.remaining(), 3);
    assert_eq!(c.advance(3), Ok(()));
    assert!(c.is_complete());
    assert!(WriteCursor::new(u64::MAX, 1).is_err());
    assert!(WriteCursor::new(u64::MAX, 0).is_ok());
}

#[test]
fn calls_stay_in_span_and_advance_in_step() {
    let src = source();
    let asked = std::cell::RefCell::new(Vec::new());
    let r = read_fully(10, 8, |o: u64, m: usize| -> Result<Vec<u8>, String> {
        asked.borrow_mut().push((o, m));
        let at = o as usize;
        Ok(src[at..at + m.min(3)].to_vec())
    });
    assert_eq!(r, Ok(src[10..18].to_vec()));
    assert_eq!(*asked.borrow(), vec![(10, 8), (13, 5), (16, 2)]);

    let data: Vec<u8> = (0..7u8).collect();
    let handed = std::cell::RefCell::new(Vec::new());
    let w = write_fully(20, &data, |o: u64, d: &[u8]| -> Result<usize, String> {
        handed.borrow_mut().push((o, d.to_vec()));
        Ok(d.len().min(3))
    });
    assert_eq!(w, Ok(()));
    assert_eq!(
        *handed.borrow(),
        vec![(20, data.clone()), (23, data[3..].to_vec()), (26, data[6..].to_vec())]
    );
}

#[test]
fn empty_write_succeeds_without_a_call() {
    let calls = Cell::new(0usize);
    let r = write_fully(3, &[], |_o: u64, _d: &[u8]| -> Result<usize, String> {
        calls.set(calls.get() + 1);
        Ok(0)
    });
    assert_eq!(r, Ok(()));
    assert_eq!(calls.get(), 0);
}
