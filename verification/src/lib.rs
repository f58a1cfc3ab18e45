//! A room-scheduling library: it assigns time-boxed activities to a limited
//! pool of rooms, honoring room capacities and never double-booking a room,
//! together with the verified decision logic of the service around it
//! (configuration defaults and the authorization checks).

pub mod auth;
pub mod config;
pub mod models;
pub mod scheduler;
pub mod text;
