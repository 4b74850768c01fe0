//! Character classes and variable names shared by both directions.
//!
//! `format` holds the statements of an obfuscated script, `keyspace` the
//! names in the order of counting, `obfuscator` and `deobfuscator` the two
//! directions, and `round_trip` the proof that the second undoes the
//! first: for a source of characters of the full set, none of whose lines
//! is left as it is, written without the echo line, and with names such
//! that no alias stands inside a line of the body.

use crate::batch::keyspace::{first_unused, is_exhausted, is_used};
use crate::text::string_views;
use rand::seq::SliceRandom;
use rand::Rng;
use vstd::prelude::*;

pub mod deobfuscator;
pub mod format;
pub mod keyspace;
pub mod obfuscator;
pub mod round_trip;

verus! {

/// The length a variable name has at least, where the caller names none.
pub const DEFAULT_MIN_LENGTH: u32 = 7;

/// The length a variable name has at most, where the caller names none.
pub const DEFAULT_MAX_LENGTH: u32 = 109;

/// How often a name is drawn at random before the unused names are
/// searched in order.
pub const RANDOM_DRAWS: usize = 32;

/// Why an operation of this library gave no result.
#[derive(Debug, Clone, Copy, PartialEq, Eq, Structural)]
pub enum BatchError {
    /// Every variable name within the length bounds has been issued.
    TokenSpaceExhausted,
    /// One of the three opening statements of an obfuscated script is missing.
    AnchorNotFound,
    /// A line is not a variable definition of the scheme.
    MalformedDefinition,
    /// A line defines or uses a variable or a label of its own, and the
    /// caller has not agreed to leave such lines as they are.
    AmbiguousUserSyntax,
}

/// How a character of the full set is treated.
#[derive(Debug, Clone, Copy, PartialEq, Eq, Structural)]
pub enum CharClass {
    /// Replaced by a reference to a variable that holds it.
    Substitutable,
    /// Copied as it is.
    PassThrough,
}

/// The character that opens and closes a variable reference.
pub const DELIMITER: char = '%';

/// The three character sets the scheme is built on.
#[derive(Debug, Clone, Copy)]
pub enum CharSet {
    /// Every character the scheme knows: the printable ASCII characters,
    /// the line feed and the carriage return.
    FullSet,
    /// The ASCII letters, of which variable names are made.
    Letters,
    /// The characters that are never replaced by a variable reference.
    BadChars,
}

impl CharSet {
    /// The members of the set, in the order in which `values` lists them.
    pub open spec fn members(self) -> Seq<char> {
        match self {
            CharSet::FullSet => seq![
                'a', 'b', 'c', 'd', 'e', 'f', 'g', 'h', 'i', 'j', 'k', 'l', 'm', 'n', 'o', 'p', 'q',
                'r', 's', 't', 'u', 'v', 'w', 'x', 'y', 'z', 'A', 'B', 'C', 'D', 'E', 'F', 'G', 'H',
                'I', 'J', 'K', 'L', 'M', 'N', 'O', 'P', 'Q', 'R', 'S', 'T', 'U', 'V', 'W', 'X', 'Y',
                'Z', '0', '1', '2', '3', '4', '5', '6', '7', '8', '9', '!', '"', '#', '$', '%', '&',
                '\'', '(', ')', '*', '+', ',', '-', '.', '/', ':', ';', '<', '=', '>', '?', '@', '[',
                '\\', ']', '^', '_', '`', '{', '|', '}', '~', ' ', '\n', '\r',
            ],
            CharSet::Letters => seq![
                'a', 'b', 'c', 'd', 'e', 'f', 'g', 'h', 'i', 'j', 'k', 'l', 'm', 'n', 'o', 'p', 'q',
                'r', 's', 't', 'u', 'v', 'w', 'x', 'y', 'z', 'A', 'B', 'C', 'D', 'E', 'F', 'G', 'H',
                'I', 'J', 'K', 'L', 'M', 'N', 'O', 'P', 'Q', 'R', 'S', 'T', 'U', 'V', 'W', 'X', 'Y',
                'Z',
            ],
            CharSet::BadChars => seq!['<', '>', '|', '%', '^', '&', '\n', '\r'],
        }
    }

    /// The members of the set as a vector.
    pub fn values(&self) -> (v: Vec<char>)
        ensures
            v@ == self.members(),
    {
        match *self {
            CharSet::FullSet => vec![
                'a', 'b', 'c', 'd', 'e', 'f', 'g', 'h', 'i', 'j', 'k', 'l', 'm', 'n', 'o', 'p', 'q',
                'r', 's', 't', 'u', 'v', 'w', 'x', 'y', 'z', 'A', 'B', 'C', 'D', 'E', 'F', 'G', 'H',
                'I', 'J', 'K', 'L', 'M', 'N', 'O', 'P', 'Q', 'R', 'S', 'T', 'U', 'V', 'W', 'X', 'Y',
                'Z', '0', '1', '2', '3', '4', '5', '6', '7', '8', '9', '!', '"', '#', '$', '%', '&',
                '\'', '(', ')', '*', '+', ',', '-', '.', '/', ':', ';', '<', '=', '>', '?', '@', '[',
                '\\', ']', '^', '_', '`', '{', '|', '}', '~', ' ', '\n', '\r',
            ],
            CharSet::Letters => vec![
                'a', 'b', 'c', 'd', 'e', 'f', 'g', 'h', 'i', 'j', 'k', 'l', 'm', 'n', 'o', 'p', 'q',
                'r', 's', 't', 'u', 'v', 'w', 'x', 'y', 'z', 'A', 'B', 'C', 'D', 'E', 'F', 'G', 'H',
                'I', 'J', 'K', 'L', 'M', 'N', 'O', 'P', 'Q', 'R', 'S', 'T', 'U', 'V', 'W', 'X', 'Y',
                'Z',
            ],
            CharSet::BadChars => vec!['<', '>', '|', '%', '^', '&', '\n', '\r'],
        }
    }
}

/// True for the 52 ASCII letters, the only characters a variable name may hold.
pub open spec fn is_letter(c: char) -> bool {
    ('a' <= c && c <= 'z') || ('A' <= c && c <= 'Z')
}

/// True for the characters that are copied as they are.
pub open spec fn is_bad_char(c: char) -> bool {
    c == '<' || c == '>' || c == '|' || c == '%' || c == '^' || c == '&' || c == '\n' || c == '\r'
}

/// True for the characters of the full set.
pub open spec fn is_extended(c: char) -> bool {
    (' ' <= c && c <= '~') || c == '\n' || c == '\r'
}

/// The place of an extended character in the full set.
pub open spec fn full_set_index(c: char) -> int {
    if 'a' <= c && c <= 'z' {
        c as int - 'a' as int
    } else if 'A' <= c && c <= 'Z' {
        26 + c as int - 'A' as int
    } else if '0' <= c && c <= '9' {
        52 + c as int - '0' as int
    } else if '!' <= c && c <= '/' {
        62 + c as int - '!' as int
    } else if ':' <= c && c <= '@' {
        77 + c as int - ':' as int
    } else if '[' <= c && c <= '`' {
        84 + c as int - '[' as int
    } else if '{' <= c && c <= '~' {
        90 + c as int - '{' as int
    } else if c == ' ' {
        94
    } else if c == '\n' {
        95
    } else {
        96
    }
}

/// The full set lists every extended character once, at its index.
pub proof fn lemma_full_set()
    ensures
        CharSet::FullSet.members().len() == 97,
        forall|c: char| is_extended(c) ==> 0 <= #[trigger] full_set_index(c) < 97
            && CharSet::FullSet.members()[full_set_index(c)] == c,
        forall|i: int| 0 <= i < 97 ==> is_extended(#[trigger] CharSet::FullSet.members()[i])
            && full_set_index(CharSet::FullSet.members()[i]) == i,
{
}

/// The letters are exactly the characters for which `is_letter` holds.
pub proof fn lemma_letters()
    ensures
        CharSet::Letters.members().len() == 52,
        forall|c: char| is_letter(c) <==> CharSet::Letters.members().contains(c),
{
}

/// The bad characters are exactly the characters for which `is_bad_char` holds.
pub proof fn lemma_bad_chars()
    ensures
        CharSet::BadChars.members().len() == 8,
        forall|c: char| is_bad_char(c) <==> CharSet::BadChars.members().contains(c),
{
}

/// True for the characters that are replaced by a variable reference.
pub open spec fn is_substitutable(c: char) -> bool {
    is_extended(c) && !is_bad_char(c)
}

/// The class of `c`, or `None` where `c` is outside the full set.
pub open spec fn class_of(c: char) -> Option<CharClass> {
    if !is_extended(c) {
        None
    } else if is_bad_char(c) {
        Some(CharClass::PassThrough)
    } else {
        Some(CharClass::Substitutable)
    }
}

/// Every character of `s` is a letter.
pub open spec fn all_letters(s: Seq<char>) -> bool {
    forall|i: int| 0 <= i < s.len() ==> is_letter(#[trigger] s[i])
}

/// `s` is a variable name of a length from `min` to `max`.
pub open spec fn is_token(s: Seq<char>, min: int, max: int) -> bool {
    min <= s.len() <= max && all_letters(s)
}

/// The least length asked for.
pub open spec fn min_length(min: Option<u32>) -> int {
    match min {
        Some(m) => m as int,
        None => DEFAULT_MIN_LENGTH as int,
    }
}

/// The greatest length asked for.
pub open spec fn max_length(max: Option<u32>) -> int {
    match max {
        Some(m) => m as int,
        None => DEFAULT_MAX_LENGTH as int,
    }
}

/// No two entries of `names` are equal.
pub open spec fn pairwise_distinct(names: Seq<Seq<char>>) -> bool {
    forall|i: int, j: int| 0 <= i < j < names.len() ==> names[i] != names[j]
}

/// The class of `c`: bad characters pass through, the other characters of
/// the full set are substitutable, and every other character has no class.
pub fn classify(c: char) -> (k: Option<CharClass>)
    ensures
        k == class_of(c),
{
    if !((c >= ' ' && c <= '~') || c == '\n' || c == '\r') {
        None
    } else if bad_char(c) {
        Some(CharClass::PassThrough)
    } else {
        Some(CharClass::Substitutable)
    }
}

/// Decides whether `c` is copied as it is.
pub fn bad_char(c: char) -> (b: bool)
    ensures
        b == is_bad_char(c),
{
    c == '<' || c == '>' || c == '|' || c == '%' || c == '^' || c == '&' || c == '\n' || c == '\r'
}

/// Decides whether `c` is an ASCII letter.
pub fn letter(c: char) -> (b: bool)
    ensures
        b == is_letter(c),
{
    (c >= 'a' && c <= 'z') || (c >= 'A' && c <= 'Z')
}

/// The thread-local generator of `rand`: opaque here.
#[verifier::external_type_specification]
#[verifier::external_body]
pub struct ExThreadRng(rand::rngs::ThreadRng);

/// `rand::thread_rng` hands out the generator of the calling thread.
/// Nothing is claimed of it. The call panics where the system gives
/// nothing to seed the generator with, or does not let it be told of a
/// fork of the process; no argument decides either.
pub assume_specification[ rand::thread_rng ]() -> (rng: rand::rngs::ThreadRng);

/// `Rng::gen_range` on the inclusive range from `min` to `max`: the value
/// drawn lies in the range. The call panics on an empty range, which the
/// precondition leaves out. It also panics where the generator is due
/// to be seeded anew and the system gives nothing to seed it with, which
/// no argument decides.
#[verifier::external_body]
fn draw_length(rng: &mut rand::rngs::ThreadRng, min: u32, max: u32) -> (n: u32)
    requires
        min <= max,
    ensures
        min <= n <= max,
{
    rng.gen_range(min..=max)
}

/// `SliceRandom::choose` on the slice of `letters`: one of its elements,
/// or `None` where it is empty. The call panics where the generator is
/// due to be seeded anew and the system gives nothing to seed it with,
/// which no argument decides.
#[verifier::external_body]
fn draw_letter(rng: &mut rand::rngs::ThreadRng, letters: &Vec<char>) -> (c: Option<char>)
    ensures
        match c {
            Some(x) => letters@.contains(x),
            None => letters@.len() == 0,
        },
{
    letters.as_slice().choose(rng).copied()
}

/// Issues `candidate` unless it has been issued before: it is recorded in
/// `used` exactly when it was not there yet.
pub fn claim_token(candidate: &String, used: &mut Vec<String>) -> (fresh: bool)
    ensures
        fresh == !string_views(old(used)@).contains(candidate@),
        fresh ==> string_views(final(used)@) == string_views(old(used)@).push(candidate@),
        !fresh ==> final(used)@ == old(used)@,
{
    if is_used(used, candidate) {
        return false;
    }
    used.push(candidate.clone());
    proof {
        assert(string_views(used@) =~= string_views(old(used)@).push(candidate@));
    }
    true
}

/// A name of random length from `min` to `max`, made of random letters.
fn random_candidate(rng: &mut rand::rngs::ThreadRng, letters: &Vec<char>, min: u32, max: u32) -> (s:
    String)
    requires
        min <= max,
        letters@ == CharSet::Letters.members(),
    ensures
        is_token(s@, min as int, max as int),
{
    let len: u32 = draw_length(rng, min, max);
    let mut s = String::new();
    let mut i: u32 = 0;
    while i < len
        invariant
            i <= len,
            letters@ == CharSet::Letters.members(),
            s@.len() == i,
            all_letters(s@),
        decreases len - i,
    {
        let c = draw_letter(rng, letters);
        proof {
            lemma_letters();
        }
        let c = c.unwrap();
        s.push(c);
        i += 1;
    }
    s
}

/// A fresh variable name of a length from `min` to `max` (7 and 109 where
/// `None`), made of letters only, which is not in `used` and is recorded
/// there before it is returned.
///
/// The name is drawn at random. Where `RANDOM_DRAWS` draws in a row give
/// names that have been issued, the first name in the order of counting
/// that has not been issued is taken. The error is `TokenSpaceExhausted`,
/// and it comes exactly where every name of these lengths has been issued.
pub fn generate_random_chars(min: Option<u32>, max: Option<u32>, used: &mut Vec<String>) -> (r:
    Result<String, BatchError>)
    requires
        1 <= min_length(min) <= max_length(max),
    ensures
        match r {
            Ok(t) => {
                &&& is_token(t@, min_length(min), max_length(max))
                &&& !string_views(old(used)@).contains(t@)
                &&& string_views(final(used)@) == string_views(old(used)@).push(t@)
            },
            Err(e) => {
                &&& e == BatchError::TokenSpaceExhausted
                &&& final(used)@ == old(used)@
                &&& is_exhausted(string_views(old(used)@), min_length(min), max_length(max))
            },
        },
{
    let lo: u32 = match min {
        Some(m) => m,
        None => DEFAULT_MIN_LENGTH,
    };
    let hi: u32 = match max {
        Some(m) => m,
        None => DEFAULT_MAX_LENGTH,
    };
    let letters = CharSet::Letters.values();
    let mut rng = rand::thread_rng();
    let mut draws: usize = 0;
    while draws < RANDOM_DRAWS
        invariant
            draws <= RANDOM_DRAWS,
            lo <= hi,
            lo == min_length(min),
            hi == max_length(max),
            letters@ == CharSet::Letters.members(),
            used@ == old(used)@,
        decreases RANDOM_DRAWS - draws,
    {
        let candidate = random_candidate(&mut rng, &letters, lo, hi);
        if claim_token(&candidate, used) {
            return Ok(candidate);
        }
        draws += 1;
    }
    match first_unused(lo, hi, used) {
        Some(name) => {
            let fresh = claim_token(&name, used);
            assert(fresh);
            Ok(name)
        },
        None => Err(BatchError::TokenSpaceExhausted),
    }
}

} // verus!
