//! A reversible obfuscator for batch scripts.
//!
//! Literal characters are rewritten as references to randomly named
//! variables; the inverse direction recovers the variable table from the
//! structure of the rewritten script alone.
//!
//! `batch::obfuscator::BatchObfuscator` writes an obfuscated script, and
//! `batch::deobfuscator::BatchDeobfuscator` reads one back. `batch::round_trip`
//! proves that what is read back is what was written, under these
//! conditions: the source holds characters of the full set only; none of
//! its lines defines or uses a variable or a label of its own; the script
//! opens without the echo line, which is else read back as a line of the
//! source; and none of the three aliases happens to stand inside a line
//! of the body, which is else taken for a statement of the script.
//! `text` holds what both need of character sequences.

pub mod batch;
pub mod text;
