//! Selects, from a priority-ordered list of available locales, the one that best
//! satisfies a priority-ordered list of user locales.
//!
//! Two grammars are handled, each in a module of its own:
//! * [`bcp47`] for language tags such as `zh-cmn-Hans-CN`;
//! * [`posix`] for identifiers such as `ru_RU.UTF-8@icase`.
//!
//! Both rest on [`select`], which states and computes the choice among scored
//! candidates: the highest score wins, and among equals the earliest.

pub mod ascii;
pub mod bcp47;
pub mod posix;
pub mod select;
