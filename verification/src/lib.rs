//! Guest-list handling, name search ranking and RSVP request logic for a
//! wedding website.

pub mod text;
pub mod guest_list;
pub mod csv;
pub mod name_searcher;
pub mod csv_searcher;
pub mod handler;
pub mod photo;
pub mod routes;
