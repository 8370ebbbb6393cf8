pub mod builder;
pub mod calendar;
pub mod html;
pub mod laws;
pub mod messages;
pub mod model;
pub mod search;
pub mod sort;
pub mod stats;
pub mod text;
pub mod views;
