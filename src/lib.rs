pub mod context;
pub mod laws;
pub mod model;
pub mod number;
pub mod rating;
pub mod site;
pub mod value;
