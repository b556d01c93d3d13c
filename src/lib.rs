pub mod longint;
pub mod fraction;
pub mod number;
pub mod matrix;
pub mod lu;
pub mod qr;
pub mod poly;
pub mod eigen;
pub mod io;
pub mod complex;
pub mod rational;
