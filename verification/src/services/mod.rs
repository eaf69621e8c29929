pub mod gui;
pub mod report;
pub mod scanner;
pub mod round_trip;
