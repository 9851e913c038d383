pub mod bozo32;
pub mod rrs;

pub use bozo32::Bozo32;
pub use rrs::Rrs1;
