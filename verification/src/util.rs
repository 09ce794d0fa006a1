pub mod iter;
