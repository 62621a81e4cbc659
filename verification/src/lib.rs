pub mod text;
pub mod model;
pub mod clock;
pub mod order;
pub mod group;
pub mod load;
pub mod analysis;
pub mod report;
