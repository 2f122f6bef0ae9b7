//! Verified core of the stereo sound radar: the sample rings shared by the
//! capture and analysis threads and the bookkeeping around them, the integer
//! state of the onset detector, the grammar of the calibration file and the
//! completion plan of its tables, the bit-reversal stage of the FFT, and the
//! packing of overlay colours.

pub mod audio;
pub mod dsp;
pub mod utils;
