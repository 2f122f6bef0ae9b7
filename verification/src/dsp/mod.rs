pub mod calib;
pub mod fft;
pub mod onset;
pub mod ring;
