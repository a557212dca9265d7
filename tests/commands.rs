use odrive_rs::commands::ODrive;
use odrive_rs::decimal::Decimal;
use odrive_rs::enumerations::{Axis, AxisState, ControlMode, EncoderMode};
use odrive_rs::stream::MockStream;

fn init_odrive() -> ODrive<MockStream> {
    let stream = MockStream::default();
    ODrive::new(stream)
}

fn feed(odrive: &mut ODrive<MockStream>, bytes: &[u8]) {
    odrive.io_stream.read_buffer.append(&mut bytes.to_vec());
    odrive.io_stream.read_buffer.reverse();
}

#[test]
fn base_tests_test_set_current() {
    let mut odrive = init_odrive();
    odrive.set_current(Axis::Zero, Decimal::integer(24)).unwrap();
    assert_eq!(b"c 0 24\n".to_vec(), odrive.io_stream.write_buffer);
    assert!(odrive.io_stream.flushed)
}

#[test]
fn tests_test_set_current() {
    let mut odrive = init_odrive();
    odrive.set_current(Axis::Zero, Decimal::integer(24)).unwrap();
    assert_eq!(b"c 0 24\n".to_vec(), odrive.io_stream.write_buffer);
    assert!(odrive.io_stream.flushed)
}

#[test]
fn base_tests_test_set_trajectory() {
    let mut odrive = init_odrive();
    odrive.set_trajectory(Axis::Zero, Decimal::integer(24)).unwrap();
    assert_eq!(b"t 0 24\n".to_vec(), odrive.io_stream.write_buffer);
    assert!(odrive.io_stream.flushed)
}

#[test]
fn tests_test_set_trajectory() {
    let mut odrive = init_odrive();
    odrive.set_trajectory(Axis::Zero, Decimal::integer(24)).unwrap();
    assert_eq!(b"t 0 24\n".to_vec(), odrive.io_stream.write_buffer);
    assert!(odrive.io_stream.flushed)
}

#[test]
fn base_tests_test_set_velocity_default() {
    let mut odrive = init_odrive();
    odrive.set_velocity(Axis::Zero, Decimal::integer(24), None).unwrap();
    assert_eq!(b"v 0 24 0\n".to_vec(), odrive.io_stream.write_buffer);
    assert!(odrive.io_stream.flushed)
}

#[test]
fn tests_test_set_velocity_default() {
    let mut odrive = init_odrive();
    odrive.set_velocity(Axis::Zero, Decimal::integer(24), None).unwrap();
    assert_eq!(b"v 0 24 0\n".to_vec(), odrive.io_stream.write_buffer);
    assert!(odrive.io_stream.flushed)
}

#[test]
fn base_tests_test_set_velocity_feed_forward() {
    let mut odrive = init_odrive();
    odrive.set_velocity(Axis::Zero, Decimal::integer(24), Some(Decimal::integer(12))).unwrap();
    assert_eq!(b"v 0 24 12\n".to_vec(), odrive.io_stream.write_buffer);
    assert!(odrive.io_stream.flushed)
}

#[test]
fn tests_test_set_velocity_feed_forward() {
    let mut odrive = init_odrive();
    odrive.set_velocity(Axis::Zero, Decimal::integer(24), Some(Decimal::integer(12))).unwrap();
    assert_eq!(b"v 0 24 12\n".to_vec(), odrive.io_stream.write_buffer);
    assert!(odrive.io_stream.flushed)
}

#[test]
fn test_set_position_p_default() {
    let mut odrive = init_odrive();
    odrive.set_position_p(Axis::Zero, Decimal::integer(24), None, None).unwrap();
    assert_eq!(b"p 0 24 0 0\n".to_vec(), odrive.io_stream.write_buffer);
    assert!(odrive.io_stream.flushed)
}

#[test]
fn test_set_position_q_default() {
    let mut odrive = init_odrive();
    odrive.set_position_q(Axis::Zero, Decimal::integer(24), None, None).unwrap();
    assert_eq!(b"q 0 24 0 0\n".to_vec(), odrive.io_stream.write_buffer);
    assert!(odrive.io_stream.flushed)
}

#[test]
fn configuration_tests_test_save_configuration() {
    let mut odrive = init_odrive();
    odrive.save_configuration().unwrap();
    assert_eq!(b"ss\n".to_vec(), odrive.io_stream.write_buffer);
    assert!(odrive.io_stream.flushed)
}

#[test]
fn tests_test_save_configuration() {
    let mut odrive = init_odrive();
    odrive.save_configuration().unwrap();
    assert_eq!(b"ss\n".to_vec(), odrive.io_stream.write_buffer);
    assert!(odrive.io_stream.flushed)
}

#[test]
fn configuration_tests_test_erase_configuration() {
    let mut odrive = init_odrive();
    odrive.erase_configuration().unwrap();
    assert_eq!(b"se\n".to_vec(), odrive.io_stream.write_buffer);
    assert!(odrive.io_stream.flushed)
}

#[test]
fn tests_test_erase_configuration() {
    let mut odrive = init_odrive();
    odrive.erase_configuration().unwrap();
    assert_eq!(b"se\n".to_vec(), odrive.io_stream.write_buffer);
    assert!(odrive.io_stream.flushed)
}

#[test]
fn controller_tests_test_set_pos_gain() {
    let mut odrive = init_odrive();
    odrive.set_position_gain(Axis::Zero, Decimal::integer(24)).unwrap();
    assert_eq!(b"w axis0.controller.config.pos_gain 24\n".to_vec(), odrive.io_stream.write_buffer);
    assert!(odrive.io_stream.flushed)
}

#[test]
fn controller_tests_test_set_vel_gain() {
    let mut odrive = init_odrive();
    odrive.set_velocity_gain(Axis::Zero, Decimal::integer(24)).unwrap();
    assert_eq!(b"w axis0.controller.config.vel_gain 24\n".to_vec(), odrive.io_stream.write_buffer);
    assert!(odrive.io_stream.flushed)
}

#[test]
fn controller_tests_test_set_vel_integrator_gain() {
    let mut odrive = init_odrive();
    odrive.set_velocity_integrator_gain(Axis::Zero, Decimal::integer(24)).unwrap();
    assert_eq!(b"w axis0.controller.config.vel_integrator_gain 24\n".to_vec(), odrive.io_stream.write_buffer);
    assert!(odrive.io_stream.flushed)
}

#[test]
fn controller_tests_test_set_vel_limit() {
    let mut odrive = init_odrive();
    odrive.set_velocity_limit(Axis::Zero, Decimal::integer(24)).unwrap();
    assert_eq!(b"w axis0.controller.config.vel_limit 24\n".to_vec(), odrive.io_stream.write_buffer);
    assert!(odrive.io_stream.flushed)
}

#[test]
fn controller_tests_test_set_control_mode() {
    let mut odrive = init_odrive();
    odrive.set_control_mode(Axis::Zero, ControlMode::VelocityControl).unwrap();
    assert_eq!(b"w axis0.controller.config.control_mode 2\n".to_vec(), odrive.io_stream.write_buffer);
    assert!(odrive.io_stream.flushed)
}

#[test]
fn test_set_encoder_mode() {
    let mut odrive = init_odrive();
    odrive.set_encoder_mode(Axis::Zero, EncoderMode::EncoderModeHall).unwrap();
    assert_eq!(b"w axis0.encoder.config.mode 1\n".to_vec(), odrive.io_stream.write_buffer);
    assert!(odrive.io_stream.flushed)
}

#[test]
fn test_set_encoder_cpr() {
    let mut odrive = init_odrive();
    odrive.set_encoder_cpr(Axis::Zero, 50).unwrap();
    assert_eq!(b"w axis0.encoder.config.cpr 50\n".to_vec(), odrive.io_stream.write_buffer);
    assert!(odrive.io_stream.flushed)
}

#[test]
fn test_set_encoder_bandwidth() {
    let mut odrive = init_odrive();
    odrive.set_encoder_bandwidth(Axis::Zero, Decimal::integer(50)).unwrap();
    assert_eq!(b"w axis0.encoder.config.bandwidth 50\n".to_vec(), odrive.io_stream.write_buffer);
    assert!(odrive.io_stream.flushed)
}

#[test]
fn test_set_encoder_pre_calibration() {
    let mut odrive = init_odrive();
    odrive.set_encoder_pre_calibrated(Axis::Zero, true).unwrap();
    assert_eq!(b"w axis0.encoder.config.pre_calibrated 1\n".to_vec(), odrive.io_stream.write_buffer);
    assert!(odrive.io_stream.flushed)
}

#[test]
fn test_set_pole_pairs() {
    let mut odrive = init_odrive();
    odrive.set_motor_pole_pairs(Axis::Zero, 25).unwrap();
    assert_eq!(b"w axis0.motor.config.pole_pairs 25\n".to_vec(), odrive.io_stream.write_buffer);
    assert!(odrive.io_stream.flushed)
}

#[test]
fn test_set_resistance_calibration_max_voltage() {
    let mut odrive = init_odrive();
    odrive.set_motor_resistance_calib_max_voltage(Axis::Zero, Decimal::integer(25)).unwrap();
    assert_eq!(b"w axis0.motor.config.resistance_calib_max_voltage 25\n".to_vec(), odrive.io_stream.write_buffer);
    assert!(odrive.io_stream.flushed)
}

#[test]
fn test_set_requested_current_range() {
    let mut odrive = init_odrive();
    odrive.set_motor_requested_current_range(Axis::Zero, Decimal::integer(25)).unwrap();
    assert_eq!(b"w axis0.motor.config.requested_current_range 25\n".to_vec(), odrive.io_stream.write_buffer);
    assert!(odrive.io_stream.flushed)
}

#[test]
fn test_set_current_control_bandwidth() {
    let mut odrive = init_odrive();
    odrive.set_motor_current_control_bandwidth(Axis::Zero, Decimal::integer(25)).unwrap();
    assert_eq!(b"w axis0.motor.config.current_control_bandwidth 25\n".to_vec(), odrive.io_stream.write_buffer);
    assert!(odrive.io_stream.flushed)
}

#[test]
fn startup_tests_test_startup_calibration_setter() {
    let mut odrive = init_odrive();
    odrive.set_startup_motor_calibration(Axis::Zero, true).unwrap();
    assert_eq!(b"w axis0.config.startup_motor_calibration 1\n".to_vec(), odrive.io_stream.write_buffer);
    assert!(odrive.io_stream.flushed)
}

#[test]
fn tests_test_startup_calibration_setter() {
    let mut odrive = init_odrive();
    odrive.set_startup_motor_calibration(Axis::Zero, true).unwrap();
    assert_eq!(b"w axis0.config.startup_motor_calibration 1\n".to_vec(), odrive.io_stream.write_buffer);
    assert!(odrive.io_stream.flushed)
}

#[test]
fn startup_tests_test_startup_encoder_index_search_setter() {
    let mut odrive = init_odrive();
    odrive.set_startup_encoder_index_search(Axis::Zero, true).unwrap();
    assert_eq!(b"w axis0.config.startup_encoder_index_search 1\n".to_vec(), odrive.io_stream.write_buffer);
    assert!(odrive.io_stream.flushed)
}

#[test]
fn tests_test_startup_encoder_index_search_setter() {
    let mut odrive = init_odrive();
    odrive.set_startup_encoder_index_search(Axis::Zero, true).unwrap();
    assert_eq!(b"w axis0.config.startup_encoder_index_search 1\n".to_vec(), odrive.io_stream.write_buffer);
    assert!(odrive.io_stream.flushed)
}

#[test]
fn startup_tests_test_startup_encoder_offset_calibration_setter() {
    let mut odrive = init_odrive();
    odrive.set_startup_encoder_offset_calibration(Axis::Zero, true).unwrap();
    assert_eq!(b"w axis0.config.startup_encoder_offset_calibration 1\n".to_vec(), odrive.io_stream.write_buffer);
    assert!(odrive.io_stream.flushed)
}

#[test]
fn tests_test_startup_encoder_offset_calibration_setter() {
    let mut odrive = init_odrive();
    odrive.set_startup_encoder_offset_calibration(Axis::Zero, true).unwrap();
    assert_eq!(b"w axis0.config.startup_encoder_offset_calibration 1\n".to_vec(), odrive.io_stream.write_buffer);
    assert!(odrive.io_stream.flushed)
}

#[test]
fn startup_tests_test_startup_closed_loop_control_setter() {
    let mut odrive = init_odrive();
    odrive.set_startup_closed_loop_control(Axis::Zero, true).unwrap();
    assert_eq!(b"w axis0.config.startup_closed_loop_control 1\n".to_vec(), odrive.io_stream.write_buffer);
    assert!(odrive.io_stream.flushed)
}

#[test]
fn tests_test_startup_closed_loop_control_setter() {
    let mut odrive = init_odrive();
    odrive.set_startup_closed_loop_control(Axis::Zero, true).unwrap();
    assert_eq!(b"w axis0.config.startup_closed_loop_control 1\n".to_vec(), odrive.io_stream.write_buffer);
    assert!(odrive.io_stream.flushed)
}

#[test]
fn startup_tests_test_startup_sensorless_control_setter() {
    let mut odrive = init_odrive();
    odrive.set_startup_sensorless_control(Axis::Zero, true).unwrap();
    assert_eq!(b"w axis0.config.startup_sensorless_control 1\n".to_vec(), odrive.io_stream.write_buffer);
    assert!(odrive.io_stream.flushed)
}

#[test]
fn tests_test_startup_sensorless_control_setter() {
    let mut odrive = init_odrive();
    odrive.set_startup_sensorless_control(Axis::Zero, true).unwrap();
    assert_eq!(b"w axis0.config.startup_sensorless_control 1\n".to_vec(), odrive.io_stream.write_buffer);
    assert!(odrive.io_stream.flushed)
}

#[test]
fn base_tests_test_read_string() {
    let mut odrive = init_odrive();
    feed(&mut odrive, b"hello\n");
    let result = odrive.read_string().unwrap().unwrap();
    assert_eq!("hello", result);
}

#[test]
fn base_tests_test_read_int() {
    let mut odrive = init_odrive();
    feed(&mut odrive, b"25\n");
    let result = odrive.read_int().unwrap().unwrap();
    assert_eq!(25, result);
}

#[test]
fn base_tests_test_multiple_read_int() {
    let mut odrive = init_odrive();
    feed(&mut odrive, b"25\n78\n");
    let result = odrive.read_int().unwrap().unwrap();
    assert_eq!(25, result);
    let result = odrive.read_int().unwrap().unwrap();
    assert_eq!(78, result);
}

#[test]
fn base_tests_test_read_float() {
    let mut odrive = init_odrive();
    feed(&mut odrive, b"25\n");
    let result = odrive.read_float().unwrap().unwrap();
    assert_eq!(Decimal::integer(25), result);
}

#[test]
fn test_get_velocity() {
    let mut odrive = init_odrive();
    feed(&mut odrive, b"25\n");
    let result = odrive.get_velocity(Axis::Zero).unwrap().unwrap();
    assert_eq!(Decimal::integer(25), result);
    assert_eq!(b"r axis0.encoder.vel_estimate\n".to_vec(), odrive.io_stream.write_buffer);
    assert!(odrive.io_stream.flushed)
}

#[test]
fn test_run_state_instant_switch() {
    let mut odrive = init_odrive();
    feed(&mut odrive, b"1\n");
    let result = odrive.run_state(Axis::Zero, AxisState::MotorCalibration, true).unwrap();
    assert_eq!(true, result);
    assert_eq!(b"w axis0.requested_state 4\nr axis0.current_state\n".to_vec(), odrive.io_stream.write_buffer);
    assert!(odrive.io_stream.flushed)
}

#[test]
fn test_run_state_delayed_switch() {
    let mut odrive = init_odrive();
    feed(&mut odrive, b"4\n1\n");
    let result = odrive.run_state(Axis::Zero, AxisState::MotorCalibration, true).unwrap();
    assert_eq!(true, result);
    assert_eq!(b"w axis0.requested_state 4\nr axis0.current_state\nr axis0.current_state\n".to_vec(), odrive.io_stream.write_buffer);
    assert!(odrive.io_stream.flushed)
}
