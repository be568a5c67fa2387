//! A tick-driven simulator of digital logic: signal lines, gates, and
//! composites of gates whose evaluation order is derived from their wiring.

pub mod elements;
