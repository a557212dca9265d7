use std::io::{Error, ErrorKind};

use odrive_rs::commands::{ODrive, POLL_ATTEMPTS};
use odrive_rs::decimal::Decimal;
use odrive_rs::decoder::{parse_decimal_or_zero, parse_int_or_zero, trim_bytes};
use odrive_rs::encoder::{encode_read, encode_write};
use odrive_rs::enumerations::{Axis, AxisState, ControlMode, EncoderMode, MotorType};
use odrive_rs::errors::ODriveError;
use odrive_rs::stream::{DuplexStream, MockStream};

fn connected() -> ODrive<MockStream> {
    ODrive::new(MockStream::new())
}

fn replies(odrive: &mut ODrive<MockStream>, bytes: &[u8]) {
    odrive.io_stream.read_buffer.append(&mut bytes.to_vec());
    odrive.io_stream.read_buffer.reverse();
}

fn written(odrive: &ODrive<MockStream>) -> String {
    String::from_utf8(odrive.io_stream.write_buffer.clone()).unwrap()
}

struct BrokenStream;

impl DuplexStream for BrokenStream {
    fn write_all(&mut self, _bytes: &[u8]) -> Result<(), Error> {
        Err(Error::from(ErrorKind::BrokenPipe))
    }

    fn flush(&mut self) -> Result<(), Error> {
        Err(Error::from(ErrorKind::BrokenPipe))
    }

    fn read_byte(&mut self, _timeout_us: u64) -> Result<Option<(u8, u64)>, Error> {
        Err(Error::from(ErrorKind::BrokenPipe))
    }

    fn pause(&mut self, _ms: u64) {}
}

#[test]
fn reads_without_reply_are_absent() {
    let mut odrive = connected();
    assert_eq!(None, odrive.read_string().unwrap());
    assert_eq!(None, odrive.read_int().unwrap());
    assert_eq!(None, odrive.read_float().unwrap());
}

#[test]
fn one_reply_reads_as_text_integer_and_decimal() {
    let mut odrive = connected();
    replies(&mut odrive, b"25\n25\n25\n");
    assert_eq!(Some("25".to_string()), odrive.read_string().unwrap());
    assert_eq!(Some(25), odrive.read_int().unwrap());
    assert_eq!(Some(Decimal::integer(25)), odrive.read_float().unwrap());
}

#[test]
fn unreadable_replies_read_as_zero() {
    let mut odrive = connected();
    replies(&mut odrive, b"abc\n1.5\nx\n");
    assert_eq!(Some(0), odrive.read_int().unwrap());
    assert_eq!(Some(0), odrive.read_int().unwrap());
    assert_eq!(Some(Decimal::zero()), odrive.read_float().unwrap());
}

#[test]
fn replies_are_trimmed() {
    let mut odrive = connected();
    replies(&mut odrive, b"  hello world \r\n\xA0-7\t\n");
    assert_eq!(Some("hello world".to_string()), odrive.read_string().unwrap());
    assert_eq!(Some(-7), odrive.read_int().unwrap());
}

#[test]
fn three_replies_read_in_order() {
    let mut odrive = connected();
    replies(&mut odrive, b"25\n78\n-3\n");
    assert_eq!(Some(25), odrive.read_int().unwrap());
    assert_eq!(Some(78), odrive.read_int().unwrap());
    assert_eq!(Some(-3), odrive.read_int().unwrap());
    assert_eq!(None, odrive.read_int().unwrap());
}

#[test]
fn reply_without_newline_times_out() {
    let mut odrive = connected();
    replies(&mut odrive, b"25");
    assert_eq!(None, odrive.read_int().unwrap());
}

#[test]
fn long_reply_reads_whole() {
    let mut odrive = connected();
    let mut long = vec![b'7'; 300];
    long.extend_from_slice(b"\n12\n");
    replies(&mut odrive, &long);
    assert_eq!(Some("7".repeat(300)), odrive.read_string().unwrap());
    assert_eq!(Some(12), odrive.read_int().unwrap());
}

#[test]
fn reading_a_setting() {
    let mut odrive = connected();
    replies(&mut odrive, b" 24.5 \n");
    assert_eq!(Some("24.5".to_string()), odrive.read_setting("vbus_voltage").unwrap());
    assert_eq!("r vbus_voltage\n", written(&odrive));
}

#[test]
fn writing_a_named_setting() {
    let mut odrive = connected();
    odrive.set_config_variable("axis1.motor.config.pole_pairs", "7").unwrap();
    assert_eq!("w axis1.motor.config.pole_pairs 7\n", written(&odrive));
    assert!(odrive.io_stream.flushed);
}

#[test]
fn exponent_replies() {
    let mut odrive = connected();
    replies(&mut odrive, b"1e3\n2.5e-3\n-4E+2\n");
    assert_eq!(Some(Decimal::integer(1000)), odrive.read_float().unwrap());
    assert_eq!(Some(Decimal::new(25, 4)), odrive.read_float().unwrap());
    assert_eq!(Some(Decimal::integer(-400)), odrive.read_float().unwrap());
}

#[test]
fn empty_reply_is_empty_text() {
    let mut odrive = connected();
    replies(&mut odrive, b"\n");
    assert_eq!(Some(String::new()), odrive.read_string().unwrap());
}

#[test]
fn integer_parsing() {
    assert_eq!(25, parse_int_or_zero(b"25"));
    assert_eq!(5, parse_int_or_zero(b"+5"));
    assert_eq!(-25, parse_int_or_zero(b"-25"));
    assert_eq!(2147483647, parse_int_or_zero(b"2147483647"));
    assert_eq!(-2147483648, parse_int_or_zero(b"-2147483648"));
    assert_eq!(0, parse_int_or_zero(b"2147483648"));
    assert_eq!(0, parse_int_or_zero(b"99999999999999999999999"));
    assert_eq!(0, parse_int_or_zero(b""));
    assert_eq!(0, parse_int_or_zero(b"-"));
    assert_eq!(0, parse_int_or_zero(b"1 2"));
    assert_eq!(7, parse_int_or_zero(b"007"));
}

#[test]
fn decimal_parsing() {
    assert_eq!(Decimal::new(125, 1), parse_decimal_or_zero(b"12.5"));
    assert_eq!(Decimal::new(-25, 2), parse_decimal_or_zero(b"-0.25"));
    assert_eq!(Decimal::new(1, 0), parse_decimal_or_zero(b"1."));
    assert_eq!(Decimal::new(5, 1), parse_decimal_or_zero(b".5"));
    assert_eq!(Decimal::new(7, 0), parse_decimal_or_zero(b"+7"));
    assert_eq!(Decimal::zero(), parse_decimal_or_zero(b"."));
    assert_eq!(Decimal::integer(1000), parse_decimal_or_zero(b"1e3"));
    assert_eq!(Decimal::new(15, 4), parse_decimal_or_zero(b"1.5e-3"));
    assert_eq!(Decimal::new(12, 0), parse_decimal_or_zero(b"0.12E2"));
    assert_eq!(Decimal::zero(), parse_decimal_or_zero(b"1e"));
    assert_eq!(Decimal::zero(), parse_decimal_or_zero(b"e5"));
    assert_eq!(Decimal::zero(), parse_decimal_or_zero(b"nan"));
    assert_eq!(Decimal::zero(), parse_decimal_or_zero(b"1.2.3"));
    assert_eq!(Decimal::zero(), parse_decimal_or_zero(b"inf"));
}

#[test]
fn trimming_bytes() {
    assert_eq!(b"a b".to_vec(), trim_bytes(b" \t a b \r\n"));
    assert_eq!(Vec::<u8>::new(), trim_bytes(b"   "));
}

#[test]
fn decimal_text() {
    assert_eq!("24", Decimal::integer(24).to_text());
    assert_eq!("24", Decimal::new(2400, 2).to_text());
    assert_eq!("12.5", Decimal::new(125, 1).to_text());
    assert_eq!("-0.25", Decimal::new(-25, 2).to_text());
    assert_eq!("0.005", Decimal::new(5, 3).to_text());
    assert_eq!("0", Decimal::zero().to_text());
    assert_eq!("0", Decimal::new(0, 4).to_text());
    assert_eq!("-9223372036854775808", Decimal::integer(i64::MIN).to_text());
}

#[test]
fn motion_commands_with_all_terms() {
    let mut odrive = connected();
    odrive.set_position_p(Axis::One, Decimal::new(-15, 1), Some(Decimal::integer(3)), Some(Decimal::new(25, 2))).unwrap();
    odrive.set_position_q(Axis::One, Decimal::integer(100), Some(Decimal::integer(20)), None).unwrap();
    odrive.set_current(Axis::One, Decimal::new(-25, 2)).unwrap();
    assert_eq!("p 1 -1.5 3 0.25\nq 1 100 20 0\nc 1 -0.25\n", written(&odrive));
    assert!(odrive.io_stream.flushed);
}

#[test]
fn generic_lines() {
    assert_eq!("w axis1.motor.config.pole_pairs 7\n", encode_write("axis1.motor.config.pole_pairs", "7"));
    assert_eq!("r vbus_voltage\n", encode_read("vbus_voltage"));
}

#[test]
fn setting_written_twice_is_the_same_line() {
    let mut odrive = connected();
    odrive.set_position_gain(Axis::Zero, Decimal::integer(24)).unwrap();
    odrive.set_position_gain(Axis::Zero, Decimal::integer(24)).unwrap();
    assert_eq!(
        "w axis0.controller.config.pos_gain 24\nw axis0.controller.config.pos_gain 24\n",
        written(&odrive)
    );
}

#[test]
fn settings_of_axis_one() {
    let mut odrive = connected();
    odrive.set_startup_closed_loop_control(Axis::One, false).unwrap();
    odrive.set_control_mode(Axis::One, ControlMode::TrajectoryControl).unwrap();
    odrive.set_encoder_mode(Axis::One, EncoderMode::EncoderModeIncremental).unwrap();
    odrive.set_velocity_limit(Axis::One, Decimal::new(205, 1)).unwrap();
    assert_eq!(
        "w axis1.config.startup_closed_loop_control 0\nw axis1.controller.config.control_mode 4\nw axis1.encoder.config.mode 0\nw axis1.controller.config.vel_limit 20.5\n",
        written(&odrive)
    );
}

#[test]
fn run_state_without_wait_reads_nothing() {
    let mut odrive = connected();
    replies(&mut odrive, b"4\n");
    let done = odrive.run_state(Axis::One, AxisState::ClosedLoopControl, false).unwrap();
    assert!(done);
    assert_eq!("w axis1.requested_state 8\n", written(&odrive));
    assert_eq!(b"\n4".to_vec(), odrive.io_stream.read_buffer);
}

#[test]
fn run_state_gives_up_after_all_attempts() {
    let mut odrive = connected();
    replies(&mut odrive, &b"4\n".repeat(150));
    let done = odrive.run_state(Axis::Zero, AxisState::MotorCalibration, true).unwrap();
    assert!(!done);
    let expected = format!("w axis0.requested_state 4\n{}", "r axis0.current_state\n".repeat(POLL_ATTEMPTS as usize));
    assert_eq!(expected, written(&odrive));
    assert_eq!(100, odrive.io_stream.read_buffer.len());
}

#[test]
fn run_state_without_replies_gives_up() {
    let mut odrive = connected();
    let done = odrive.run_state(Axis::One, AxisState::FullCalibrationSequence, true).unwrap();
    assert!(!done);
    let expected = format!("w axis1.requested_state 3\n{}", "r axis1.current_state\n".repeat(100));
    assert_eq!(expected, written(&odrive));
}

#[test]
fn run_state_idle_on_last_attempt_counts_as_not_finished() {
    let mut odrive = connected();
    let mut stream = b"4\n".repeat(99);
    stream.extend_from_slice(b"1\n");
    replies(&mut odrive, &stream);
    let done = odrive.run_state(Axis::Zero, AxisState::MotorCalibration, true).unwrap();
    assert!(!done);
}

#[test]
fn run_state_idle_on_attempt_before_last() {
    let mut odrive = connected();
    let mut stream = b"4\n".repeat(98);
    stream.extend_from_slice(b"1\n");
    replies(&mut odrive, &stream);
    let done = odrive.run_state(Axis::Zero, AxisState::MotorCalibration, true).unwrap();
    assert!(done);
}

#[test]
fn failing_stream_is_reported() {
    let mut odrive = ODrive::new(BrokenStream);
    assert!(matches!(odrive.save_configuration(), Err(ODriveError::Io(_))));
    assert!(odrive.set_current(Axis::Zero, Decimal::zero()).is_err());
    assert!(odrive.read_int().is_err());
    assert!(odrive.read_string().is_err());
    assert!(odrive.get_velocity(Axis::One).is_err());
    assert!(odrive.run_state(Axis::Zero, AxisState::Idle, false).is_err());
    assert!(odrive.run_state(Axis::Zero, AxisState::Idle, true).is_err());
}

#[test]
fn axis_indices() {
    assert_eq!(Some(Axis::Zero), Axis::from_index(0));
    assert_eq!(Some(Axis::One), Axis::from_index(1));
    assert_eq!(None, Axis::from_index(2));
    assert_eq!(None, Axis::from_index(255));
    assert_eq!(1, Axis::One.index());
}

#[test]
fn state_and_mode_codes() {
    assert_eq!(4, AxisState::MotorCalibration.code());
    assert_eq!(Some(AxisState::ClosedLoopControl), AxisState::from_code(8));
    assert_eq!(None, AxisState::from_code(9));
    assert_eq!(None, AxisState::from_code(-1));
    assert_eq!(2, MotorType::MotorTypeGimbal.code());
    assert_eq!(3, ControlMode::PositionControl.code());
    assert_eq!(1, EncoderMode::EncoderModeHall.code());
}
