//! Locating a short audio clip (the needle) inside a longer recording (the
//! haystack) by frequency-domain cross-correlation.
//!
//! Samples and spectra are handled as IEEE-754 binary32 bit patterns, so that
//! every step here is exact: the padded transform length (`sizes`), padding,
//! needle reversal and truncation of the correlation (`buffer`), the spilled
//! buffer record that keeps a spectrum on secondary storage (`spill`), and the
//! choice of the needle's start from the correlation (`locate`).

pub mod buffer;
pub mod locate;
pub mod sizes;
pub mod spill;
