pub mod wilson;
