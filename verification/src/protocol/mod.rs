pub mod ctrl;
