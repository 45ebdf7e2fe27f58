use variable_size_byte_writer::{
    next_step, Max16, Max8, Recorded, Sink, SinkError, Step, VariableSizeByteWriter, WriteError,
    RETRY_LIMIT,
};

/// One answer of a scripted sink.
#[derive(Clone, Copy, Debug)]
enum Answer {
    /// Take at most this many bytes.
    Take(usize),
    /// Take nothing and claim this count.
    Claim(usize),
    /// Report an interruption.
    Interrupt,
    /// Fail with this code.
    Fail(u32),
}

/// A sink that gives the scripted answers in turn and then takes all that
/// it is offered. It keeps what it took, and every offer made to it.
struct Scripted {
    script: Vec<Answer>,
    next: usize,
    taken: Vec<u8>,
    offers: Vec<Vec<u8>>,
}

impl Scripted {
    fn new(script: &[Answer]) -> Self {
        Scripted { script: script.to_vec(), next: 0, taken: Vec::new(), offers: Vec::new() }
    }
}

impl Sink for Scripted {
    type Error = u32;

    fn accept(&mut self, bytes: &[u8]) -> Result<usize, SinkError<u32>> {
        self.offers.push(bytes.to_vec());
        let answer = if self.next < self.script.len() {
            self.script[self.next]
        } else {
            Answer::Take(usize::MAX)
        };
        self.next += 1;
        match answer {
            Answer::Take(limit) => {
                let n = limit.min(bytes.len());
                self.taken.extend_from_slice(&bytes[..n]);
                Ok(n)
            }
            Answer::Claim(n) => {
                if n > bytes.len() {
                    self.taken.extend_from_slice(bytes);
                }
                Ok(n)
            }
            Answer::Interrupt => Err(SinkError::Interrupted),
            Answer::Fail(code) => Err(SinkError::Failed(code)),
        }
    }
}

fn filled(
    script: &[Answer],
    capacity: usize,
    bytes: &[u8],
    bits: u32,
) -> VariableSizeByteWriter<Scripted> {
    let mut writer = VariableSizeByteWriter::with_capacity(Scripted::new(script), capacity);
    for (i, b) in bytes.iter().enumerate() {
        writer.buf[i] = *b;
    }
    writer.bits = bits;
    writer
}

#[test]
fn a_vector_takes_all_that_it_is_offered() {
    let mut sink: Vec<u8> = vec![1, 2];
    assert!(matches!(sink.accept(&[3, 4, 5]), Ok(3)));
    assert_eq!(sink, vec![1, 2, 3, 4, 5]);
    assert!(matches!(sink.accept(&[]), Ok(0)));
    assert_eq!(sink, vec![1, 2, 3, 4, 5]);
}

#[test]
fn a_recorded_sink_hands_every_offer_on() {
    let mut recorded = Recorded::new(vec![9u8]);
    assert!(matches!(recorded.accept(&[1, 2]), Ok(2)));
    assert!(matches!(recorded.accept(&[3]), Ok(1)));
    assert_eq!(*recorded.sink(), vec![9, 1, 2, 3]);
    assert_eq!(recorded.into_sink(), vec![9, 1, 2, 3]);

    let mut recorded = Recorded::new(Scripted::new(&[Answer::Interrupt, Answer::Fail(2)]));
    assert!(matches!(recorded.accept(&[1, 2]), Err(SinkError::Interrupted)));
    assert!(matches!(recorded.accept(&[1, 2]), Err(SinkError::Failed(2))));
    assert!(matches!(recorded.accept(&[1, 2]), Ok(2)));
    assert_eq!(recorded.sink().offers.len(), 3);
    assert_eq!(recorded.sink().taken, vec![1, 2]);
}

#[test]
fn next_step_goes_on_behind_what_was_taken() {
    assert!(matches!(next_step::<u32>(Ok(3), 5, 0), Step::Taken(3)));
    assert!(matches!(next_step::<u32>(Ok(5), 5, 7), Step::Taken(5)));
    assert!(matches!(next_step::<u32>(Ok(1), 1, 0), Step::Taken(1)));
}

#[test]
fn next_step_reads_a_count_too_large_as_everything() {
    assert!(matches!(next_step::<u32>(Ok(6), 5, 0), Step::Taken(5)));
    assert!(matches!(next_step::<u32>(Ok(usize::MAX), 1, 0), Step::Taken(1)));
}

#[test]
fn next_step_stops_on_a_count_of_zero() {
    assert!(matches!(next_step::<u32>(Ok(0), 5, 0), Step::Stop(WriteError::SinkExhausted)));
}

#[test]
fn next_step_retries_an_interruption() {
    assert!(matches!(next_step::<u32>(Err(SinkError::Interrupted), 5, 0), Step::Retry));
    assert!(matches!(
        next_step::<u32>(Err(SinkError::Interrupted), 5, RETRY_LIMIT - 1),
        Step::Retry
    ));
    assert!(matches!(
        next_step::<u32>(Err(SinkError::Interrupted), 5, RETRY_LIMIT),
        Step::Stop(WriteError::SinkExhausted)
    ));
    assert_eq!(RETRY_LIMIT, usize::MAX);
}

#[test]
fn next_step_hands_a_failure_on() {
    assert!(matches!(
        next_step::<u32>(Err(SinkError::Failed(17)), 5, 0),
        Step::Stop(WriteError::Sink(17))
    ));
}

#[test]
fn write_range_offers_what_is_left_until_all_is_taken() {
    let script = [Answer::Take(1), Answer::Take(2), Answer::Take(1)];
    let mut writer = filled(&script, 8, &[10, 11, 12, 13, 14, 15], 48);
    let mut written = 99;
    writer.write_range(1, 6, &mut written).unwrap();
    assert_eq!(written, 5);
    assert_eq!(writer.target.sink().taken, vec![11, 12, 13, 14, 15]);
    assert_eq!(
        writer.target.sink().offers,
        vec![vec![11, 12, 13, 14, 15], vec![12, 13, 14, 15], vec![14, 15], vec![15]]
    );
    assert_eq!(writer.buf[..], [10, 11, 12, 13, 14, 15, 0, 0]);
    assert_eq!(writer.bits, 48);
}

#[test]
fn write_range_of_nothing_leaves_the_sink_alone() {
    let mut writer = filled(&[Answer::Fail(1)], 8, &[1, 2, 3], 24);
    let mut written = 99;
    writer.write_range(2, 2, &mut written).unwrap();
    assert_eq!(written, 0);
    assert!(writer.target.sink().offers.is_empty());
}

#[test]
fn an_interruption_is_retried_and_leaves_no_trace() {
    let script = [Answer::Interrupt, Answer::Interrupt, Answer::Take(2), Answer::Interrupt];
    let mut writer = filled(&script, 8, &[1, 2, 3, 4], 32);
    let mut padding = 0;
    writer.flush(&mut padding).unwrap();
    assert_eq!(writer.target.sink().taken, vec![1, 2, 3, 4]);
    assert_eq!(
        writer.target.sink().offers,
        vec![
            vec![1, 2, 3, 4],
            vec![1, 2, 3, 4],
            vec![1, 2, 3, 4],
            vec![3, 4],
            vec![3, 4]
        ]
    );
    assert_eq!(writer.bits, 0);
    assert_eq!(writer.buf[..], [0u8; 8]);
}

#[test]
fn a_sink_that_takes_nothing_is_exhausted() {
    let mut writer = filled(&[Answer::Claim(0)], 8, &[1, 2, 3, 0x0F], 28);
    let mut padding = 0;
    let result = writer.flush(&mut padding);
    assert!(matches!(result, Err(WriteError::SinkExhausted)));
    assert_eq!(writer.buf[..], [1, 2, 3, 0x0F, 0, 0, 0, 0]);
    assert_eq!(writer.bits, 28);
    assert!(writer.target.sink().taken.is_empty());
}

#[test]
fn a_count_above_the_offer_counts_as_the_whole_offer() {
    let mut writer = filled(&[Answer::Claim(100)], 8, &[1, 2, 3], 24);
    let mut written = 0;
    writer.write_range(0, 3, &mut written).unwrap();
    assert_eq!(written, 3);
    assert_eq!(writer.target.sink().offers.len(), 1);
}

#[test]
fn a_failure_at_once_leaves_the_buffer_as_it_was() {
    let mut writer = filled(&[Answer::Fail(5)], 8, &[1, 2, 3, 0x0F], 28);
    let mut padding = 0;
    let result = writer.flush(&mut padding);
    assert!(matches!(result, Err(WriteError::Sink(5))));
    assert_eq!(padding, 4);
    assert_eq!(writer.buf[..], [1, 2, 3, 0x0F, 0, 0, 0, 0]);
    assert_eq!(writer.bits, 28);
    assert!(writer.target.sink().taken.is_empty());
}

#[test]
fn a_flush_cut_short_keeps_what_was_not_taken() {
    let script = [Answer::Take(2), Answer::Fail(9)];
    let mut writer = filled(&script, 8, &[1, 2, 3, 4, 0x15], 37);
    let mut padding = 0;
    let result = writer.flush(&mut padding);
    assert!(matches!(result, Err(WriteError::Sink(9))));
    assert_eq!(writer.target.sink().taken, vec![1, 2]);
    assert_eq!(writer.buf[..], [3, 4, 0x15, 0, 0, 0, 0, 0]);
    assert_eq!(writer.bits, 21);

    writer.flush(&mut padding).unwrap();
    assert_eq!(padding, 3);
    assert_eq!(writer.target.sink().taken, vec![1, 2, 3, 4, 0x15]);
    assert_eq!(writer.buf[..], [0u8; 8]);
    assert_eq!(writer.bits, 0);
}

#[test]
fn a_flush_cut_short_before_the_last_byte_keeps_that_byte() {
    let script = [Answer::Take(4), Answer::Fail(9)];
    let mut writer = filled(&script, 8, &[1, 2, 3, 4, 0x15], 37);
    let mut padding = 0;
    let result = writer.flush(&mut padding);
    assert!(matches!(result, Err(WriteError::Sink(9))));
    assert_eq!(writer.target.sink().taken, vec![1, 2, 3, 4]);
    assert_eq!(writer.buf[..], [0x15, 0, 0, 0, 0, 0, 0, 0]);
    assert_eq!(writer.bits, 5);
}

#[test]
fn a_drain_cut_short_returns_the_error_and_keeps_the_rest() {
    let script = [Answer::Take(1), Answer::Fail(3)];
    let mut writer = filled(&script, 8, &[1, 2, 3, 4, 0x15], 37);
    let result = writer.flush_complete_bytes();
    assert!(matches!(result, Err(WriteError::Sink(3))));
    assert_eq!(writer.target.sink().taken, vec![1]);
    assert_eq!(writer.buf[..], [2, 3, 4, 0x15, 0, 0, 0, 0]);
    assert_eq!(writer.bits, 29);

    writer.flush_complete_bytes().unwrap();
    assert_eq!(writer.target.sink().taken, vec![1, 2, 3, 4]);
    assert_eq!(writer.buf[..], [0x15, 0, 0, 0, 0, 0, 0, 0]);
    assert_eq!(writer.bits, 5);
}

#[test]
fn a_drain_with_no_complete_byte_leaves_the_sink_alone() {
    let mut writer = filled(&[Answer::Fail(1)], 4, &[0x15], 5);
    writer.flush_complete_bytes().unwrap();
    assert!(writer.target.sink().offers.is_empty());
    assert_eq!(writer.buf[..], [0x15, 0, 0, 0]);
    assert_eq!(writer.bits, 5);
}

#[test]
fn writing_up_to_the_capacity_never_drains() {
    let mut writer = VariableSizeByteWriter::with_capacity(Scripted::new(&[]), 4);
    writer.write::<Max8>(0x11, 8).unwrap();
    writer.write::<Max8>(0x22, 8).unwrap();
    writer.write::<Max8>(0x33, 8).unwrap();
    writer.write::<Max8>(0x44, 8).unwrap();
    assert_eq!(writer.bits, 32);
    assert_eq!(writer.buf[..], [0x11, 0x22, 0x33, 0x44]);
    assert!(writer.target.sink().offers.is_empty());
}

#[test]
fn one_bit_beyond_the_capacity_drains_once() {
    let mut writer = VariableSizeByteWriter::with_capacity(Scripted::new(&[]), 4);
    writer.write::<Max16>(0x2211, 16).unwrap();
    writer.write::<Max16>(0x4433, 16).unwrap();
    assert!(writer.target.sink().offers.is_empty());
    writer.write::<Max8>(1, 1).unwrap();
    assert_eq!(writer.target.sink().offers, vec![vec![0x11, 0x22, 0x33, 0x44]]);
    assert_eq!(writer.target.sink().taken, vec![0x11, 0x22, 0x33, 0x44]);
    assert_eq!(writer.bits, 1);
    assert_eq!(writer.buf[..], [1, 0, 0, 0]);
}

#[test]
fn a_drain_keeps_the_unfinished_byte() {
    let mut writer = VariableSizeByteWriter::with_capacity(Scripted::new(&[]), 4);
    writer.write::<Max16>(0x7FF, 11).unwrap();
    writer.write::<Max16>(0xFFFF, 16).unwrap();
    writer.write::<Max8>(0x5, 3).unwrap();
    assert_eq!(writer.bits, 30);
    assert!(writer.target.sink().offers.is_empty());
    writer.write::<Max8>(0x7, 3).unwrap();
    assert_eq!(writer.target.sink().taken, vec![0xFF, 0xFF, 0xFF]);
    assert_eq!(writer.bits, 9);
    assert_eq!(writer.buf[..], [0xEF, 0x01, 0, 0]);
}

#[test]
fn a_write_whose_drain_fails_writes_nothing_and_can_be_made_again() {
    let script = [Answer::Take(1), Answer::Fail(4)];
    let mut writer = VariableSizeByteWriter::with_capacity(Scripted::new(&script), 4);
    writer.write::<Max16>(0x2211, 16).unwrap();
    writer.write::<Max16>(0x0433, 12).unwrap();
    assert_eq!(writer.bits, 28);
    let result = writer.write::<Max8>(0xAB, 8);
    assert!(matches!(result, Err(WriteError::Sink(4))));
    assert_eq!(writer.target.sink().taken, vec![0x11]);
    assert_eq!(writer.buf[..], [0x22, 0x33, 0x04, 0]);
    assert_eq!(writer.bits, 20);

    writer.write::<Max8>(0xAB, 8).unwrap();
    assert_eq!(writer.target.sink().taken, vec![0x11]);
    assert_eq!(writer.buf[..], [0x22, 0x33, 0xB4, 0x0A]);
    assert_eq!(writer.bits, 28);
    let mut padding = 0;
    writer.flush(&mut padding).unwrap();
    assert_eq!(padding, 4);
    assert_eq!(writer.target.sink().taken, vec![0x11, 0x22, 0x33, 0xB4, 0x0A]);
}

#[test]
fn a_sink_that_takes_one_byte_at_a_time_gets_every_byte_once() {
    let script: Vec<Answer> = (0..40).map(|_| Answer::Take(1)).collect();
    let mut writer = VariableSizeByteWriter::with_capacity(Scripted::new(&script), 5);
    let mut expected = Vec::new();
    for i in 0..20u64 {
        writer.write::<Max8>(i * 3 + 1, 8).unwrap();
        expected.push((i * 3 + 1) as u8);
    }
    let mut padding = 0;
    writer.flush(&mut padding).unwrap();
    assert_eq!(padding, 0);
    assert_eq!(writer.target.sink().taken, expected);
}
