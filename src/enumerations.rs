use vstd::prelude::*;

verus! {

/// One of the two motor channels of the controller.
#[derive(Debug, Clone, Copy, PartialEq, Eq, Structural, PartialOrd, Ord, Hash)]
pub enum Axis {
    Zero,
    One,
}

impl Axis {
    /// The index of the axis on the wire.
    pub open spec fn spec_index(self) -> u8 {
        match self {
            Axis::Zero => 0,
            Axis::One => 1,
        }
    }

    pub fn index(self) -> (r: u8)
        ensures
            r == self.spec_index(),
            r <= 1,
    {
        match self {
            Axis::Zero => 0,
            Axis::One => 1,
        }
    }

    /// The axis with the given index; any index but 0 and 1 names no axis.
    pub fn from_index(index: u8) -> (r: Option<Axis>)
        ensures
            r is Some <==> index <= 1,
            r matches Some(a) ==> a.spec_index() == index,
    {
        if index == 0 {
            Some(Axis::Zero)
        } else if index == 1 {
            Some(Axis::One)
        } else {
            None
        }
    }
}

/// The states of an axis, as the controller reports and accepts them.
#[derive(Debug, Clone, Copy, PartialEq, Eq, Structural, PartialOrd, Ord, Hash)]
pub enum AxisState {
    Undefined,
    Idle,
    StartupSequence,
    FullCalibrationSequence,
    MotorCalibration,
    SensorlessControl,
    EncoderIndexSearch,
    EncoderOffsetCalibration,
    ClosedLoopControl,
}

/// The code of `AxisState::Idle`, the one state in which a state change counts as finished.
pub const IDLE_CODE: i32 = 1;

impl AxisState {
    pub open spec fn spec_code(self) -> u8 {
        match self {
            AxisState::Undefined => 0,
            AxisState::Idle => 1,
            AxisState::StartupSequence => 2,
            AxisState::FullCalibrationSequence => 3,
            AxisState::MotorCalibration => 4,
            AxisState::SensorlessControl => 5,
            AxisState::EncoderIndexSearch => 6,
            AxisState::EncoderOffsetCalibration => 7,
            AxisState::ClosedLoopControl => 8,
        }
    }

    /// The numeric code of the state on the wire.
    pub fn code(self) -> (r: u8)
        ensures
            r == self.spec_code(),
    {
        match self {
            AxisState::Undefined => 0,
            AxisState::Idle => 1,
            AxisState::StartupSequence => 2,
            AxisState::FullCalibrationSequence => 3,
            AxisState::MotorCalibration => 4,
            AxisState::SensorlessControl => 5,
            AxisState::EncoderIndexSearch => 6,
            AxisState::EncoderOffsetCalibration => 7,
            AxisState::ClosedLoopControl => 8,
        }
    }

    /// The state with the given code, if there is one.
    pub fn from_code(code: i32) -> (r: Option<AxisState>)
        ensures
            r is Some <==> 0 <= code <= 8,
            r matches Some(s) ==> s.spec_code() == code,
    {
        match code {
            0 => Some(AxisState::Undefined),
            1 => Some(AxisState::Idle),
            2 => Some(AxisState::StartupSequence),
            3 => Some(AxisState::FullCalibrationSequence),
            4 => Some(AxisState::MotorCalibration),
            5 => Some(AxisState::SensorlessControl),
            6 => Some(AxisState::EncoderIndexSearch),
            7 => Some(AxisState::EncoderOffsetCalibration),
            8 => Some(AxisState::ClosedLoopControl),
            _ => None,
        }
    }
}

/// The kinds of motor the controller drives.
#[derive(Debug, Clone, Copy, PartialEq, Eq, Structural, PartialOrd, Ord, Hash)]
pub enum MotorType {
    HighCurrent,
    MotorTypeGimbal,
}

impl MotorType {
    pub open spec fn spec_code(self) -> u8 {
        match self {
            MotorType::HighCurrent => 0,
            MotorType::MotorTypeGimbal => 2,
        }
    }

    pub fn code(self) -> (r: u8)
        ensures
            r == self.spec_code(),
    {
        match self {
            MotorType::HighCurrent => 0,
            MotorType::MotorTypeGimbal => 2,
        }
    }
}

/// What the controller of an axis regulates.
#[derive(Debug, Clone, Copy, PartialEq, Eq, Structural, PartialOrd, Ord, Hash)]
pub enum ControlMode {
    VoltageControl,
    CurrentControl,
    VelocityControl,
    PositionControl,
    TrajectoryControl,
}

impl ControlMode {
    pub open spec fn spec_code(self) -> u8 {
        match self {
            ControlMode::VoltageControl => 0,
            ControlMode::CurrentControl => 1,
            ControlMode::VelocityControl => 2,
            ControlMode::PositionControl => 3,
            ControlMode::TrajectoryControl => 4,
        }
    }

    pub fn code(self) -> (r: u8)
        ensures
            r == self.spec_code(),
    {
        match self {
            ControlMode::VoltageControl => 0,
            ControlMode::CurrentControl => 1,
            ControlMode::VelocityControl => 2,
            ControlMode::PositionControl => 3,
            ControlMode::TrajectoryControl => 4,
        }
    }
}

/// How the encoder of an axis reports its position.
#[derive(Debug, Clone, Copy, PartialEq, Eq, Structural, PartialOrd, Ord, Hash)]
pub enum EncoderMode {
    EncoderModeIncremental,
    EncoderModeHall,
}

impl EncoderMode {
    pub open spec fn spec_code(self) -> u8 {
        match self {
            EncoderMode::EncoderModeIncremental => 0,
            EncoderMode::EncoderModeHall => 1,
        }
    }

    pub fn code(self) -> (r: u8)
        ensures
            r == self.spec_code(),
    {
        match self {
            EncoderMode::EncoderModeIncremental => 0,
            EncoderMode::EncoderModeHall => 1,
        }
    }
}

} // verus!
