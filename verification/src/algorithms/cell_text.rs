//! The texts shown for a selected cell.
use vstd::prelude::*;

verus! {

/// Where a value of an implicit curve function puts a cell.
pub open spec fn place_word(value: int) -> Seq<char> {
    if value < 0 {
        "inside"@
    } else if value == 0 {
        "on"@
    } else {
        "outside"@
    }
}

/// The word for where `value` puts a cell: inside, on or outside the curve.
pub fn place_of(value: i64) -> (w: &'static str)
    ensures
        w@ == place_word(value as int),
{
    if value < 0 {
        "inside"
    } else if value == 0 {
        "on"
    } else {
        "outside"
    }
}

/// The decimal digits of `n`, most significant first.
pub open spec fn digits(n: nat) -> Seq<char>
    decreases n,
{
    let d = seq!['0', '1', '2', '3', '4', '5', '6', '7', '8', '9'];
    if n < 10 {
        seq![d[n as int]]
    } else {
        digits(n / 10).push(d[(n % 10) as int])
    }
}

/// `v` written in decimal, with a leading `-` when negative.
pub open spec fn decimal(v: int) -> Seq<char> {
    if v < 0 {
        seq!['-'] + digits((-v) as nat)
    } else {
        digits(v as nat)
    }
}

/// The text shown for a cell where the circle function has `value` and
/// puts the cell at `place`.
pub open spec fn circle_cell_text(value: int, place: Seq<char>) -> Seq<char> {
    "x²+y²−r²  =  "@ + decimal(value) + "\n("@ + place + "  circle)"@
}

/// The text shown for a cell where the ellipse function has `value` and
/// puts the cell at `place`.
pub open spec fn ellipse_cell_text(value: int, place: Seq<char>) -> Seq<char> {
    "b²x²+a²y²−a²b² = "@ + decimal(value) + "\n("@ + place + "  ellipse)"@
}

/// The text shown for step `step` of ring `ring`.
pub open spec fn step_ring_text(step: int, ring: int) -> Seq<char> {
    "Step "@ + decimal(step) + " (ring "@ + decimal(ring) + ")"@
}

/// Calls `format!` on the circle template. `format!` writes an integer
/// argument in decimal with a leading `-` when negative (`Display` for
/// integers) and a string argument as it is, which `circle_cell_text`
/// spells out.
#[verifier::external_body]
pub(crate) fn format_circle_cell(value: i32, place: &str) -> (text: String)
    ensures
        text@ == circle_cell_text(value as int, place@),
{
    format!("x²+y²−r²  =  {value}\n({place}  circle)")
}

/// Calls `format!` on the ellipse template, writing the value in decimal
/// and the place word as it is, which `ellipse_cell_text` spells out.
#[verifier::external_body]
pub(crate) fn format_ellipse_cell(value: i64, place: &str) -> (text: String)
    ensures
        text@ == ellipse_cell_text(value as int, place@),
{
    format!("b²x²+a²y²−a²b² = {value}\n({place}  ellipse)")
}

/// Calls `format!` on the step template, writing both numbers in decimal,
/// which `step_ring_text` spells out.
#[verifier::external_body]
pub(crate) fn format_step_ring(step: usize, ring: usize) -> (text: String)
    ensures
        text@ == step_ring_text(step as int, ring as int),
{
    format!("Step {} (ring {})", step, ring)
}

} // verus!
