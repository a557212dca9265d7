use vstd::prelude::*;

use crate::decimal::{self, push_decimal, Decimal};
use crate::enumerations::{Axis, AxisState};
use crate::text::{self, push_char, push_nat};

verus! {

/// The index of an axis as it stands in a command.
pub open spec fn axis_text(axis: Axis) -> Seq<char> {
    text::nat_text(axis.spec_index() as nat)
}

/// The text of a flag: `1` or `0`.
pub open spec fn flag_text(value: bool) -> Seq<char> {
    if value {
        seq!['1']
    } else {
        seq!['0']
    }
}

/// The text of an optional term, zero when it is absent.
pub open spec fn term_text(term: Option<Decimal>) -> Seq<char> {
    match term {
        Some(d) => decimal::decimal_text(d),
        None => seq!['0'],
    }
}

/// The dotted path of a setting of an axis: `axis<N>.<suffix>`.
pub open spec fn axis_path(axis: Axis, suffix: Seq<char>) -> Seq<char> {
    "axis"@ + axis_text(axis) + "."@ + suffix
}

/// `c <axis> <current>`
pub open spec fn current_command(axis: Axis, current: Decimal) -> Seq<char> {
    "c "@ + axis_text(axis) + " "@ + decimal::decimal_text(current) + "\n"@
}

/// `t <axis> <position>`
pub open spec fn trajectory_command(axis: Axis, position: Decimal) -> Seq<char> {
    "t "@ + axis_text(axis) + " "@ + decimal::decimal_text(position) + "\n"@
}

/// `v <axis> <velocity> <current_feed_forward>`
pub open spec fn velocity_command(
    axis: Axis,
    velocity: Decimal,
    current_feed_forward: Option<Decimal>,
) -> Seq<char> {
    "v "@ + axis_text(axis) + " "@ + decimal::decimal_text(velocity) + " "@ + term_text(
        current_feed_forward,
    ) + "\n"@
}

/// `p <axis> <position> <velocity_feed_forward> <current_feed_forward>`
pub open spec fn position_p_command(
    axis: Axis,
    position: Decimal,
    velocity_feed_forward: Option<Decimal>,
    current_feed_forward: Option<Decimal>,
) -> Seq<char> {
    "p "@ + axis_text(axis) + " "@ + decimal::decimal_text(position) + " "@ + term_text(
        velocity_feed_forward,
    ) + " "@ + term_text(current_feed_forward) + "\n"@
}

/// `q <axis> <position> <velocity_limit> <current_limit>`
pub open spec fn position_q_command(
    axis: Axis,
    position: Decimal,
    velocity_limit: Option<Decimal>,
    current_limit: Option<Decimal>,
) -> Seq<char> {
    "q "@ + axis_text(axis) + " "@ + decimal::decimal_text(position) + " "@ + term_text(velocity_limit)
        + " "@ + term_text(current_limit) + "\n"@
}

/// `w <path> <value>`
pub open spec fn write_command(path: Seq<char>, value: Seq<char>) -> Seq<char> {
    "w "@ + path + " "@ + value + "\n"@
}

/// The write of a setting of an axis: `w axis<N>.<suffix> <value>`.
pub open spec fn setting_command(axis: Axis, suffix: Seq<char>, value: Seq<char>) -> Seq<char> {
    write_command(axis_path(axis, suffix), value)
}

/// `r <path>`
pub open spec fn read_command(path: Seq<char>) -> Seq<char> {
    "r "@ + path + "\n"@
}

/// `ss`
pub open spec fn save_command() -> Seq<char> {
    "ss\n"@
}

/// `se`
pub open spec fn erase_command() -> Seq<char> {
    "se\n"@
}

/// The request that an axis change to a state: `w axis<N>.requested_state <code>`.
pub open spec fn requested_state_command(axis: Axis, state: AxisState) -> Seq<char> {
    write_command(axis_path(axis, "requested_state"@), text::nat_text(state.spec_code() as nat))
}

/// The query of the state of an axis: `r axis<N>.current_state`.
pub open spec fn current_state_query(axis: Axis) -> Seq<char> {
    read_command(axis_path(axis, "current_state"@))
}

/// The query of the velocity estimate of an axis: `r axis<N>.encoder.vel_estimate`.
pub open spec fn velocity_query(axis: Axis) -> Seq<char> {
    read_command(axis_path(axis, "encoder.vel_estimate"@))
}

fn push_term(out: &mut String, term: Option<Decimal>)
    ensures
        final(out)@ == old(out)@ + term_text(term),
{
    match term {
        Some(d) => push_decimal(out, d),
        None => {
            push_char(out, '0');
            assert(final(out)@ =~= old(out)@ + term_text(term));
        },
    }
}

/// Starts a command of the form `<verb><axis> `.
fn start_axis_command(verb: &str, axis: Axis) -> (r: String)
    ensures
        r@ == verb@ + axis_text(axis) + " "@,
{
    let mut r = String::from_str(verb);
    push_nat(&mut r, axis.index() as u128);
    r.append(" ");
    r
}

pub fn encode_current(axis: Axis, current: Decimal) -> (r: String)
    ensures
        r@ == current_command(axis, current),
{
    let mut r = start_axis_command("c ", axis);
    push_decimal(&mut r, current);
    r.append("\n");
    assert(r@ =~= current_command(axis, current));
    r
}

pub fn encode_trajectory(axis: Axis, position: Decimal) -> (r: String)
    ensures
        r@ == trajectory_command(axis, position),
{
    let mut r = start_axis_command("t ", axis);
    push_decimal(&mut r, position);
    r.append("\n");
    assert(r@ =~= trajectory_command(axis, position));
    r
}

pub fn encode_velocity(axis: Axis, velocity: Decimal, current_feed_forward: Option<Decimal>) -> (r:
    String)
    ensures
        r@ == velocity_command(axis, velocity, current_feed_forward),
{
    let mut r = start_axis_command("v ", axis);
    push_decimal(&mut r, velocity);
    r.append(" ");
    push_term(&mut r, current_feed_forward);
    r.append("\n");
    assert(r@ =~= velocity_command(axis, velocity, current_feed_forward));
    r
}

pub fn encode_position_p(
    axis: Axis,
    position: Decimal,
    velocity_feed_forward: Option<Decimal>,
    current_feed_forward: Option<Decimal>,
) -> (r: String)
    ensures
        r@ == position_p_command(axis, position, velocity_feed_forward, current_feed_forward),
{
    let mut r = start_axis_command("p ", axis);
    push_decimal(&mut r, position);
    r.append(" ");
    push_term(&mut r, velocity_feed_forward);
    r.append(" ");
    push_term(&mut r, current_feed_forward);
    r.append("\n");
    assert(r@ =~= position_p_command(axis, position, velocity_feed_forward, current_feed_forward));
    r
}

pub fn encode_position_q(
    axis: Axis,
    position: Decimal,
    velocity_limit: Option<Decimal>,
    current_limit: Option<Decimal>,
) -> (r: String)
    ensures
        r@ == position_q_command(axis, position, velocity_limit, current_limit),
{
    let mut r = start_axis_command("q ", axis);
    push_decimal(&mut r, position);
    r.append(" ");
    push_term(&mut r, velocity_limit);
    r.append(" ");
    push_term(&mut r, current_limit);
    r.append("\n");
    assert(r@ =~= position_q_command(axis, position, velocity_limit, current_limit));
    r
}

pub fn encode_write(path: &str, value: &str) -> (r: String)
    ensures
        r@ == write_command(path@, value@),
{
    let mut r = String::from_str("w ");
    r.append(path);
    r.append(" ");
    r.append(value);
    r.append("\n");
    r
}

pub fn encode_read(path: &str) -> (r: String)
    ensures
        r@ == read_command(path@),
{
    let mut r = String::from_str("r ");
    r.append(path);
    r.append("\n");
    r
}

pub fn encode_save() -> (r: String)
    ensures
        r@ == save_command(),
{
    String::from_str("ss\n")
}

pub fn encode_erase() -> (r: String)
    ensures
        r@ == erase_command(),
{
    String::from_str("se\n")
}

/// The dotted path `axis<N>.<suffix>`.
pub fn encode_axis_path(axis: Axis, suffix: &str) -> (r: String)
    ensures
        r@ == axis_path(axis, suffix@),
{
    let mut r = String::from_str("axis");
    push_nat(&mut r, axis.index() as u128);
    r.append(".");
    r.append(suffix);
    r
}

/// `w axis<N>.<suffix> <value>`
pub fn encode_axis_write(axis: Axis, suffix: &str, value: &str) -> (r: String)
    ensures
        r@ == write_command(axis_path(axis, suffix@), value@),
{
    let path = encode_axis_path(axis, suffix);
    encode_write(path.as_str(), value)
}

pub fn encode_requested_state(axis: Axis, state: AxisState) -> (r: String)
    ensures
        r@ == requested_state_command(axis, state),
{
    let mut code = String::new();
    push_nat(&mut code, state.code() as u128);
    assert(code@ =~= text::nat_text(state.spec_code() as nat));
    encode_axis_write(axis, "requested_state", code.as_str())
}

pub fn encode_current_state_query(axis: Axis) -> (r: String)
    ensures
        r@ == current_state_query(axis),
{
    let path = encode_axis_path(axis, "current_state");
    encode_read(path.as_str())
}

pub fn encode_velocity_query(axis: Axis) -> (r: String)
    ensures
        r@ == velocity_query(axis),
{
    let path = encode_axis_path(axis, "encoder.vel_estimate");
    encode_read(path.as_str())
}

} // verus!
