pub mod models;
pub mod store;
pub mod galaxy_objects;
pub mod star_link;
pub mod tools;
pub mod laws;
