use fifo::fifo;
use fifo::shutdown::{Shutdown, SHUT_READ, SHUT_WRITE};
use fifo::splice::{SpliceRead, SpliceWrite, VecSink, VecSource};
use fifo::{Error, WouldBlock};

#[test]
fn test_shutdown() {
    let s = Shutdown::new();
    assert_eq!(s.shuted(SHUT_READ), false);
    assert_eq!(s.shuted(SHUT_WRITE), false);

    let mut s = Shutdown::new();
    s.shutdown(SHUT_READ);
    assert_eq!(s.shuted(SHUT_READ), true);

    let mut s = Shutdown::new();
    s.shutdown(SHUT_WRITE);
    assert_eq!(s.shuted(SHUT_WRITE), true);
}

#[test]
fn capacity_rounds_up_to_power_of_two() {
    let (_tx, _rx, ring) = fifo(0);
    assert_eq!(ring.size(), 128);
    let (_tx, _rx, ring) = fifo(100);
    assert_eq!(ring.size(), 128);
    let (_tx, _rx, ring) = fifo(128);
    assert_eq!(ring.size(), 128);
    let (_tx, _rx, ring) = fifo(129);
    assert_eq!(ring.size(), 256);
    let (_tx, _rx, ring) = fifo(1 << 20);
    assert_eq!(ring.size(), 1 << 20);
}

#[test]
fn round_trip_returns_what_was_written() {
    let (mut tx, mut rx, mut ring) = fifo(128);
    let mut data: Vec<u8> = Vec::new();
    for i in 0..100u8 {
        data.push(i);
    }
    assert_eq!(tx.write(&mut ring, &data).unwrap(), 100);
    assert_eq!(ring.unread(), 100);
    let mut buf = vec![0u8; 100];
    assert_eq!(rx.read(&mut ring, &mut buf).unwrap(), 100);
    assert_eq!(buf, data);
    assert_eq!(ring.unread(), 0);
}

#[test]
fn fifo_order_concatenates_writes() {
    let (mut tx, mut rx, mut ring) = fifo(128);
    assert_eq!(tx.write(&mut ring, &[1u8, 2, 3]).unwrap(), 3);
    assert_eq!(tx.write(&mut ring, &[4u8, 5]).unwrap(), 2);
    let mut buf = vec![0u8; 5];
    assert_eq!(rx.read(&mut ring, &mut buf).unwrap(), 5);
    assert_eq!(buf, vec![1u8, 2, 3, 4, 5]);
}

#[test]
fn oversized_write_is_cut_to_free_space() {
    let (mut tx, _rx, mut ring) = fifo(128);
    let data = vec![9u8; 300];
    assert_eq!(tx.write(&mut ring, &data).unwrap(), 128);
    assert_eq!(ring.unread(), 128);
}

#[test]
fn wraparound_keeps_bytes_intact() {
    let (mut tx, mut rx, mut ring) = fifo(128);
    for round in 0..3000u32 {
        let mut chunk: Vec<u8> = Vec::new();
        for i in 0..7u8 {
            chunk.push((round as u8).wrapping_add(i));
        }
        assert_eq!(tx.write(&mut ring, &chunk).unwrap(), 7);
        let mut buf = vec![0u8; 7];
        assert_eq!(rx.read(&mut ring, &mut buf).unwrap(), 7);
        assert_eq!(buf, chunk);
    }
    assert_eq!(ring.unread(), 0);
}

#[test]
fn nonblocking_mode_reports_would_block() {
    let (mut tx, mut rx, mut ring) = fifo(128);
    tx.set_would_block(WouldBlock::Nonblock);
    rx.set_would_block(WouldBlock::Nonblock);
    let mut buf = vec![0u8; 8];
    assert_eq!(rx.read(&mut ring, &mut buf).unwrap_err(), Error::WouldBlock);
    let data = vec![0u8; 128];
    assert_eq!(tx.write(&mut ring, &data).unwrap(), 128);
    assert_eq!(tx.write(&mut ring, &data).unwrap_err(), Error::WouldBlock);
}

#[test]
fn write_half_close_drains_then_signals_eof() {
    let (mut tx, mut rx, mut ring) = fifo(128);
    assert_eq!(tx.write(&mut ring, &[1u8, 2, 3]).unwrap(), 3);
    tx.close(&mut ring);
    let mut buf = vec![0u8; 2];
    assert_eq!(rx.read(&mut ring, &mut buf).unwrap(), 2);
    assert_eq!(buf, vec![1u8, 2]);
    let mut rest = vec![0u8; 8];
    assert_eq!(rx.read(&mut ring, &mut rest).unwrap(), 1);
    assert_eq!(rest[0], 3);
    assert_eq!(rx.read(&mut ring, &mut rest).unwrap(), 0);
    assert_eq!(rx.read(&mut ring, &mut rest).unwrap(), 0);
}

#[test]
fn read_half_close_breaks_the_pipe() {
    let (mut tx, rx, mut ring) = fifo(128);
    rx.close(&mut ring);
    let data = vec![5u8; 200];
    assert_eq!(tx.write(&mut ring, &data).unwrap(), 128);
    assert_eq!(tx.write(&mut ring, &data).unwrap_err(), Error::BrokenPipe);
    let empty: [u8; 0] = [];
    assert_eq!(tx.write(&mut ring, &empty).unwrap_err(), Error::BrokenPipe);
}

#[test]
fn splice_copies_the_whole_source() {
    let (mut tx, mut rx, mut ring) = fifo(512);
    let mut data: Vec<u8> = Vec::new();
    for i in 0..300u32 {
        data.push((i % 251) as u8);
    }
    let mut src = VecSource::new(data.clone());
    tx.splice_all_from(&mut ring, &mut src).unwrap();
    assert_eq!(ring.unread(), 300);
    tx.close(&mut ring);
    let mut sink = VecSink::new();
    rx.splice_all_to(&mut ring, &mut sink).unwrap();
    assert_eq!(ring.unread(), 0);
    assert_eq!(sink.into_vec(), data);
}

#[test]
fn splice_from_respects_the_limit() {
    let (mut tx, _rx, mut ring) = fifo(128);
    let mut src = VecSource::new(vec![1u8, 2, 3, 4, 5]);
    assert_eq!(tx.splice_from(&mut ring, &mut src, 3).unwrap(), 3);
    assert_eq!(ring.unread(), 3);
    assert_eq!(tx.splice_from(&mut ring, &mut src, 10).unwrap(), 2);
    assert_eq!(ring.unread(), 5);
    assert_eq!(tx.splice_from(&mut ring, &mut src, 10).unwrap(), 0);
}

#[test]
fn splice_to_respects_the_limit() {
    let (mut tx, mut rx, mut ring) = fifo(128);
    assert_eq!(tx.write(&mut ring, &[1u8, 2, 3, 4, 5]).unwrap(), 5);
    let mut sink = VecSink::new();
    assert_eq!(rx.splice_to(&mut ring, &mut sink, 2).unwrap(), 2);
    assert_eq!(ring.unread(), 3);
    assert_eq!(rx.splice_to(&mut ring, &mut sink, 10).unwrap(), 3);
    assert_eq!(sink.into_vec(), vec![1u8, 2, 3, 4, 5]);
}

#[test]
fn splice_handles_the_wrap_boundary() {
    let (mut tx, mut rx, mut ring) = fifo(128);
    let pad = vec![7u8; 100];
    assert_eq!(tx.write(&mut ring, &pad).unwrap(), 100);
    let mut drained = vec![0u8; 100];
    assert_eq!(rx.read(&mut ring, &mut drained).unwrap(), 100);
    let mut data: Vec<u8> = Vec::new();
    for i in 0..60u8 {
        data.push(i);
    }
    let mut src = VecSource::new(data.clone());
    assert_eq!(tx.splice_from(&mut ring, &mut src, 512).unwrap(), 60);
    let mut sink = VecSink::new();
    assert_eq!(rx.splice_to(&mut ring, &mut sink, 512).unwrap(), 60);
    assert_eq!(sink.into_vec(), data);
}

#[test]
fn splice_to_reports_would_block_while_writer_lives() {
    let (_tx, mut rx, mut ring) = fifo(128);
    let mut sink = VecSink::new();
    assert_eq!(
        rx.splice_to(&mut ring, &mut sink, 512).unwrap_err(),
        Error::WouldBlock
    );
}

#[test]
fn splice_from_reports_broken_pipe_when_full_and_reader_gone() {
    let (mut tx, rx, mut ring) = fifo(128);
    let data = vec![3u8; 128];
    assert_eq!(tx.write(&mut ring, &data).unwrap(), 128);
    rx.close(&mut ring);
    let mut src = VecSource::new(vec![1u8, 2, 3]);
    assert_eq!(
        tx.splice_from(&mut ring, &mut src, 512).unwrap_err(),
        Error::BrokenPipe
    );
}

#[test]
fn create_write_read_scenario() {
    let (mut tx, mut rx, mut ring) = fifo(100);
    assert_eq!(ring.size(), 128);
    let zeros = vec![0u8; 512];
    assert_eq!(tx.write(&mut ring, &zeros).unwrap(), 128);
    let mut buf = vec![1u8; 512];
    assert_eq!(rx.read(&mut ring, &mut buf).unwrap(), 128);
    for i in 0..512usize {
        if i < 128 {
            assert_eq!(buf[i], 0);
        } else {
            assert_eq!(buf[i], 1);
        }
    }
    rx.set_would_block(WouldBlock::Nonblock);
    let mut again = vec![0u8; 8];
    assert_eq!(rx.read(&mut ring, &mut again).unwrap_err(), Error::WouldBlock);
    tx.close(&mut ring);
    assert_eq!(rx.read(&mut ring, &mut again).unwrap(), 0);
}

#[test]
fn flush_always_succeeds() {
    let (mut tx, _rx, mut ring) = fifo(128);
    assert_eq!(tx.flush(&mut ring), Ok(()));
}

#[test]
fn empty_write_reports_would_block_while_reader_lives() {
    let (mut tx, _rx, mut ring) = fifo(128);
    let empty: [u8; 0] = [];
    assert_eq!(tx.write(&mut ring, &empty).unwrap_err(), Error::WouldBlock);
}

struct FailingSource;

impl fifo::splice::ByteSource for FailingSource {
    fn remaining(&self) -> vstd::seq::Seq<u8> {
        unreachable!()
    }

    fn read_into(
        &mut self,
        _dest: &mut Vec<u8>,
        _start: usize,
        _len: usize,
    ) -> Result<usize, Error> {
        Err(Error::Other)
    }
}

#[test]
fn source_error_propagates_verbatim() {
    let (mut tx, _rx, mut ring) = fifo(128);
    let mut src = FailingSource;
    assert_eq!(
        tx.splice_from(&mut ring, &mut src, 16).unwrap_err(),
        Error::Other
    );
    assert_eq!(ring.unread(), 0);
}

#[test]
fn retry_policy_decides_the_driver_action() {
    let (mut tx, mut rx, _ring) = fifo(128);
    assert_eq!(tx.retry_after(), Some(10));
    assert_eq!(rx.retry_after(), Some(10));
    tx.set_would_block(WouldBlock::Nonblock);
    rx.set_would_block(WouldBlock::Nonblock);
    assert_eq!(tx.retry_after(), None);
    assert_eq!(rx.retry_after(), None);
    tx.set_would_block(WouldBlock::Sleep(25));
    assert_eq!(tx.retry_after(), Some(25));
}
