pub mod barycenter;
pub mod coords;
pub mod graph;
pub mod layout;
pub mod order;
pub mod palette;
pub mod rank;
pub mod route;
