//! What the typing tutor needs of the compiled model: the chords to show
//! for the text of a lesson, and the line that the pupil copies.

pub mod copier;
pub mod tutor_util;
