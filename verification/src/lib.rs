//! A compact notation for structured running workouts: a parser for the
//! notation and an estimator of the distance a workout covers.
//!
//! ```text
//! 1 mile warmup + 3 x (0.5 miles @z3 + 1 mile recovery) + 0.5 miles cooldown
//! ```
//!
//! [`parse_workout`] reads such a text into a [`models::Workout`];
//! [`mileage::mileage`] estimates the least and the greatest distance that a
//! workout covers for an athlete whose paces are given by a
//! [`models::PaceMap`].
//!
//! Quantities are exact decimals and distances are whole billionths of a
//! mile, so that every result is stated exactly. What holds of every
//! estimate is proved in [`mileage::laws`]; what holds of every input, of the
//! workouts that are read and of the errors that are reported, in
//! [`parser::laws`], [`parser::writing`] and [`parser::blame`].

pub mod mileage;
pub mod models;
pub mod parser;

pub use mileage::get_mileage;
pub use parser::parse_workout;
