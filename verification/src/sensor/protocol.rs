//! What each sensor test asks the user to do.
//!
//! Every one of these tests measures something the mouse only reveals under a
//! specific hand movement, and the detector behind it will refuse rather than
//! guess when the movement was wrong.
use vstd::prelude::*;

verus! {

/// The six sensor measurements, in the order they appear in the interface.
#[derive(Clone, Copy, PartialEq, Eq, Debug, Structural)]
pub enum Test {
    Cpi,
    Drift,
    Snap,
    Smooth,
    Tracking,
    Lod,
}

pub open spec fn test_index(t: Test) -> int {
    match t {
        Test::Cpi => 0,
        Test::Drift => 1,
        Test::Snap => 2,
        Test::Smooth => 3,
        Test::Tracking => 4,
        Test::Lod => 5,
    }
}

pub open spec fn test_titles() -> Seq<Seq<char>> {
    seq![
        "counts per inch"@,
        "drift and jitter while stationary"@,
        "angle snapping and path correction"@,
        "motion smoothing"@,
        "maximum tracking speed"@,
        "lift-off distance"@,
    ]
}

pub open spec fn test_purposes() -> Seq<Seq<char>> {
    seq![
        "Does the mouse actually count what it claims to count?"@,
        "Does the pointer move when your hand does not?"@,
        "Does the firmware straighten your line for you?"@,
        "Does motion keep arriving after the mouse has stopped?"@,
        "How fast can you move before the sensor loses the surface?"@,
        "How high can it rise before the sensor stops seeing the pad?"@,
    ]
}

/// The steps of the cpi test.
pub open spec fn cpi_steps() -> Seq<Seq<char>> {
    seq![
        "Put two marks on the desk a measured distance apart, along a straight edge if you have one. Longer is better: 8 inches beats 2."@,
        "Enter that distance and the CPI the mouse is configured to, above."@,
        "Line the mouse up on the first mark, press start, then wait for the countdown to finish."@,
        "Slide the mouse in one steady straight movement to the second mark and stop. Do not lift it, and do not go fast: above 40 inches per second the result is thrown out rather than reported."@,
        "Repeat at least three times. The result is the median across runs, and the spread between them is the honest measure of how repeatable this is."@,
    ]
}

/// The steps of the drift test.
pub open spec fn drift_steps() -> Seq<Seq<char>> {
    seq![
        "Put the mouse down on the surface you normally use and take your hand off it completely."@,
        "Press start and do not touch the mouse, the desk, or the cable for the whole capture."@,
        "A mouse that reports nothing at all here is the ideal result, not a failure of the test."@,
    ]
}

/// The steps of the snap test.
pub open spec fn snap_steps() -> Seq<Seq<char>> {
    seq![
        "Aim for a long straight line, at least 2 inches, at a normal speed. Slower than 5 inches per second and the result is thrown out, because a careful hand and a correcting firmware look the same at a creep."@,
        "Press start, wait for the countdown, then draw the line in one movement."@,
        "Draw it at an angle, not along the edge of the desk. A line you drew perfectly horizontally cannot be told from one the firmware snapped to horizontal."@,
        "This test needs the sensor's own noise to work with. On a very quiet sensor it will say so rather than pass you."@,
    ]
}

/// The steps of the smooth test.
pub open spec fn smooth_steps() -> Seq<Seq<char>> {
    seq![
        "Put a book or the edge of the mousepad down as something to stop against."@,
        "Press start, wait for the countdown, then glide at a steady moderate speed into the stop so the mouse halts in one report."@,
        "The abrupt stop is the whole point. A hand slowing down on its own looks exactly like a filter, and no statistic can separate them; a wall can."@,
        "Moderate means roughly 15 to 25 inches per second. Faster than that and the result is thrown out."@,
    ]
}

/// The steps of the tracking test.
pub open spec fn tracking_steps() -> Seq<Seq<char>> {
    seq![
        "Give yourself as much clear desk as you can."@,
        "Press start, then make repeated swipes, each one faster than the last, until you are moving as fast as you physically can."@,
        "Keep the mouse flat on the surface. A lifted mouse is a different measurement."@,
        "If nothing ever breaks, the answer is a lower bound: you did not find the limit, which is not the same as there being none."@,
    ]
}

/// The steps of the lod test.
pub open spec fn lod_steps() -> Seq<Seq<char>> {
    seq![
        "Build the runway. Two piles of the same number of cards, side by side on the pad, with a slot of a few millimetres between them running across the way you will sweep. Tape them down. The mouse rides on the cards and the sensor looks down the slot at the pad, so over the cards it sits at its normal height and over the slot it is raised by the thickness of one pile. A stack laid flat UNDER the whole mouse raises the sensor and the surface it looks at by the same amount and measures nothing."@,
        "The mouse never leaves the desk in this test. Nothing is lifted, so a cable never moves."@,
        "Check the slot by sliding the mouse across it slowly. If a foot drops in, the slot is too wide: the mouse tilts and the height stops being the height you measured. Make it narrower."@,
        "Measure twenty cards in one stack with a ruler and enter that figure, then how many cards are in each pile and how wide the slot is. Twenty at once because a card is only about a third of a millimetre, so a ruler read to half a millimetre cannot resolve one; dividing that reading across twenty costs one measurement and buys back a factor of twenty."@,
        "Run the control first, with the cards taken away and 0 entered. It says nothing about the mouse: it proves that you sweep without stopping and that the link is not dropping reports. Nothing at any height is judged until it passes."@,
        "Press start, wait out the countdown, then sweep back and forth across the slot for the whole recording. Turn round at both ends, well clear of the slot, and do not stop in the middle of a sweep. The turns are not wasted time: each one is a full stop taken with the sensor on the surface, and that is how the app learns what your own stops look like instead of assuming."@,
        "Then change the number of cards and run it again. Each run answers one question, did it track at that height, and the answer is the gap between the tallest pile that tracked and the shortest that did not. That gap can never be narrower than one card."@,
    ]
}

/// The instruction steps of each test, in interface order.
pub open spec fn test_steps() -> Seq<Seq<Seq<char>>> {
    seq![cpi_steps(), drift_steps(), snap_steps(), smooth_steps(), tracking_steps(), lod_steps()]
}

/// How many instruction steps each test has.
pub open spec fn test_step_counts() -> Seq<nat> {
    seq![5, 3, 4, 4, 4, 7]
}

impl Test {
    /// Every test, in interface order.
    pub fn all() -> (r: [Test; 6])
        ensures
            forall|i: int| 0 <= i < 6 ==> test_index(#[trigger] r@[i]) == i,
    {
        [Test::Cpi, Test::Drift, Test::Snap, Test::Smooth, Test::Tracking, Test::Lod]
    }

    pub fn title(self) -> (t: &'static str)
        ensures
            t@ == test_titles()[test_index(self)],
    {
        match self {
            Test::Cpi => "counts per inch",
            Test::Drift => "drift and jitter while stationary",
            Test::Snap => "angle snapping and path correction",
            Test::Smooth => "motion smoothing",
            Test::Tracking => "maximum tracking speed",
            Test::Lod => "lift-off distance",
        }
    }

    /// What the test is for, in one line.
    pub fn purpose(self) -> (t: &'static str)
        ensures
            t@ == test_purposes()[test_index(self)],
    {
        match self {
            Test::Cpi => "Does the mouse actually count what it claims to count?",
            Test::Drift => "Does the pointer move when your hand does not?",
            Test::Snap => "Does the firmware straighten your line for you?",
            Test::Smooth => "Does motion keep arriving after the mouse has stopped?",
            Test::Tracking => "How fast can you move before the sensor loses the surface?",
            Test::Lod => "How high can it rise before the sensor stops seeing the pad?",
        }
    }

    /// Milliseconds of capture. Each is set by what the detector needs, not by
    /// feel.
    pub fn capture_ms(self) -> (ms: u32)
        ensures
            ms == (match self {
                Test::Cpi => 6000u32,
                Test::Drift => 15000u32,
                Test::Snap => 8000u32,
                Test::Smooth => 8000u32,
                Test::Tracking => 20000u32,
                Test::Lod => 20000u32,
            }),
    {
        match self {
            // One swipe plus room to line the mouse up and stop cleanly.
            Test::Cpi => 6000,
            // The drift detector's own minimum is 10 s; 15 s separates a small
            // bias from a random walk.
            Test::Drift => 15000,
            // One long stroke, and a slow careful line still fits.
            Test::Snap => 8000,
            // A glide and a stop, with time to set up the stop surface.
            Test::Smooth => 8000,
            // Several swipes of increasing speed.
            Test::Tracking => 20000,
            // Thirty to forty half-strokes.
            Test::Lod => 20000,
        }
    }

    /// The instructions, one step per line.
    pub fn steps(self) -> (s: Vec<&'static str>)
        ensures
            s@.len() == test_step_counts()[test_index(self)],
            s@.map_values(|x: &str| x@) == test_steps()[test_index(self)],
    {
        match self {
            Test::Cpi => {
                let v = vec![
                    "Put two marks on the desk a measured distance apart, along a straight edge if you have one. Longer is better: 8 inches beats 2.",
                    "Enter that distance and the CPI the mouse is configured to, above.",
                    "Line the mouse up on the first mark, press start, then wait for the countdown to finish.",
                    "Slide the mouse in one steady straight movement to the second mark and stop. Do not lift it, and do not go fast: above 40 inches per second the result is thrown out rather than reported.",
                    "Repeat at least three times. The result is the median across runs, and the spread between them is the honest measure of how repeatable this is.",
                ];
                proof {
                    assert(v@.map_values(|x: &str| x@) =~= cpi_steps());
                }
                v
            },
            Test::Drift => {
                let v = vec![
                    "Put the mouse down on the surface you normally use and take your hand off it completely.",
                    "Press start and do not touch the mouse, the desk, or the cable for the whole capture.",
                    "A mouse that reports nothing at all here is the ideal result, not a failure of the test.",
                ];
                proof {
                    assert(v@.map_values(|x: &str| x@) =~= drift_steps());
                }
                v
            },
            Test::Snap => {
                let v = vec![
                    "Aim for a long straight line, at least 2 inches, at a normal speed. Slower than 5 inches per second and the result is thrown out, because a careful hand and a correcting firmware look the same at a creep.",
                    "Press start, wait for the countdown, then draw the line in one movement.",
                    "Draw it at an angle, not along the edge of the desk. A line you drew perfectly horizontally cannot be told from one the firmware snapped to horizontal.",
                    "This test needs the sensor's own noise to work with. On a very quiet sensor it will say so rather than pass you.",
                ];
                proof {
                    assert(v@.map_values(|x: &str| x@) =~= snap_steps());
                }
                v
            },
            Test::Smooth => {
                let v = vec![
                    "Put a book or the edge of the mousepad down as something to stop against.",
                    "Press start, wait for the countdown, then glide at a steady moderate speed into the stop so the mouse halts in one report.",
                    "The abrupt stop is the whole point. A hand slowing down on its own looks exactly like a filter, and no statistic can separate them; a wall can.",
                    "Moderate means roughly 15 to 25 inches per second. Faster than that and the result is thrown out.",
                ];
                proof {
                    assert(v@.map_values(|x: &str| x@) =~= smooth_steps());
                }
                v
            },
            Test::Tracking => {
                let v = vec![
                    "Give yourself as much clear desk as you can.",
                    "Press start, then make repeated swipes, each one faster than the last, until you are moving as fast as you physically can.",
                    "Keep the mouse flat on the surface. A lifted mouse is a different measurement.",
                    "If nothing ever breaks, the answer is a lower bound: you did not find the limit, which is not the same as there being none.",
                ];
                proof {
                    assert(v@.map_values(|x: &str| x@) =~= tracking_steps());
                }
                v
            },
            Test::Lod => {
                let v = vec![
                    "Build the runway. Two piles of the same number of cards, side by side on the pad, with a slot of a few millimetres between them running across the way you will sweep. Tape them down. The mouse rides on the cards and the sensor looks down the slot at the pad, so over the cards it sits at its normal height and over the slot it is raised by the thickness of one pile. A stack laid flat UNDER the whole mouse raises the sensor and the surface it looks at by the same amount and measures nothing.",
                    "The mouse never leaves the desk in this test. Nothing is lifted, so a cable never moves.",
                    "Check the slot by sliding the mouse across it slowly. If a foot drops in, the slot is too wide: the mouse tilts and the height stops being the height you measured. Make it narrower.",
                    "Measure twenty cards in one stack with a ruler and enter that figure, then how many cards are in each pile and how wide the slot is. Twenty at once because a card is only about a third of a millimetre, so a ruler read to half a millimetre cannot resolve one; dividing that reading across twenty costs one measurement and buys back a factor of twenty.",
                    "Run the control first, with the cards taken away and 0 entered. It says nothing about the mouse: it proves that you sweep without stopping and that the link is not dropping reports. Nothing at any height is judged until it passes.",
                    "Press start, wait out the countdown, then sweep back and forth across the slot for the whole recording. Turn round at both ends, well clear of the slot, and do not stop in the middle of a sweep. The turns are not wasted time: each one is a full stop taken with the sensor on the surface, and that is how the app learns what your own stops look like instead of assuming.",
                    "Then change the number of cards and run it again. Each run answers one question, did it track at that height, and the answer is the gap between the tallest pile that tracked and the shortest that did not. That gap can never be narrower than one card.",
                ];
                proof {
                    assert(v@.map_values(|x: &str| x@) =~= lod_steps());
                }
                v
            },
        }
    }
}
/// Every test shows at least one step, and no step is empty.
pub proof fn lemma_steps_are_written()
    ensures
        forall|i: int| 0 <= i < 6 ==> #[trigger] test_steps()[i].len() == test_step_counts()[i] && test_step_counts()[i] > 0,
        forall|i: int, k: int| 0 <= i < 6 && 0 <= k < test_steps()[i].len() ==> #[trigger] test_steps()[i][k].len() > 0,
{
    reveal_strlit("Put two marks on the desk a measured distance apart, along a straight edge if you have one. Longer is better: 8 inches beats 2.");
    reveal_strlit("Enter that distance and the CPI the mouse is configured to, above.");
    reveal_strlit("Line the mouse up on the first mark, press start, then wait for the countdown to finish.");
    reveal_strlit("Slide the mouse in one steady straight movement to the second mark and stop. Do not lift it, and do not go fast: above 40 inches per second the result is thrown out rather than reported.");
    reveal_strlit("Repeat at least three times. The result is the median across runs, and the spread between them is the honest measure of how repeatable this is.");
    reveal_strlit("Put the mouse down on the surface you normally use and take your hand off it completely.");
    reveal_strlit("Press start and do not touch the mouse, the desk, or the cable for the whole capture.");
    reveal_strlit("A mouse that reports nothing at all here is the ideal result, not a failure of the test.");
    reveal_strlit("Aim for a long straight line, at least 2 inches, at a normal speed. Slower than 5 inches per second and the result is thrown out, because a careful hand and a correcting firmware look the same at a creep.");
    reveal_strlit("Press start, wait for the countdown, then draw the line in one movement.");
    reveal_strlit("Draw it at an angle, not along the edge of the desk. A line you drew perfectly horizontally cannot be told from one the firmware snapped to horizontal.");
    reveal_strlit("This test needs the sensor's own noise to work with. On a very quiet sensor it will say so rather than pass you.");
    reveal_strlit("Put a book or the edge of the mousepad down as something to stop against.");
    reveal_strlit("Press start, wait for the countdown, then glide at a steady moderate speed into the stop so the mouse halts in one report.");
    reveal_strlit("The abrupt stop is the whole point. A hand slowing down on its own looks exactly like a filter, and no statistic can separate them; a wall can.");
    reveal_strlit("Moderate means roughly 15 to 25 inches per second. Faster than that and the result is thrown out.");
    reveal_strlit("Give yourself as much clear desk as you can.");
    reveal_strlit("Press start, then make repeated swipes, each one faster than the last, until you are moving as fast as you physically can.");
    reveal_strlit("Keep the mouse flat on the surface. A lifted mouse is a different measurement.");
    reveal_strlit("If nothing ever breaks, the answer is a lower bound: you did not find the limit, which is not the same as there being none.");
    reveal_strlit("Build the runway. Two piles of the same number of cards, side by side on the pad, with a slot of a few millimetres between them running across the way you will sweep. Tape them down. The mouse rides on the cards and the sensor looks down the slot at the pad, so over the cards it sits at its normal height and over the slot it is raised by the thickness of one pile. A stack laid flat UNDER the whole mouse raises the sensor and the surface it looks at by the same amount and measures nothing.");
    reveal_strlit("The mouse never leaves the desk in this test. Nothing is lifted, so a cable never moves.");
    reveal_strlit("Check the slot by sliding the mouse across it slowly. If a foot drops in, the slot is too wide: the mouse tilts and the height stops being the height you measured. Make it narrower.");
    reveal_strlit("Measure twenty cards in one stack with a ruler and enter that figure, then how many cards are in each pile and how wide the slot is. Twenty at once because a card is only about a third of a millimetre, so a ruler read to half a millimetre cannot resolve one; dividing that reading across twenty costs one measurement and buys back a factor of twenty.");
    reveal_strlit("Run the control first, with the cards taken away and 0 entered. It says nothing about the mouse: it proves that you sweep without stopping and that the link is not dropping reports. Nothing at any height is judged until it passes.");
    reveal_strlit("Press start, wait out the countdown, then sweep back and forth across the slot for the whole recording. Turn round at both ends, well clear of the slot, and do not stop in the middle of a sweep. The turns are not wasted time: each one is a full stop taken with the sensor on the surface, and that is how the app learns what your own stops look like instead of assuming.");
    reveal_strlit("Then change the number of cards and run it again. Each run answers one question, did it track at that height, and the answer is the gap between the tallest pile that tracked and the shortest that did not. That gap can never be narrower than one card.");
    assert(cpi_steps().len() == 5 && drift_steps().len() == 3 && snap_steps().len() == 4);
    assert(smooth_steps().len() == 4 && tracking_steps().len() == 4 && lod_steps().len() == 7);
}

} // verus!
