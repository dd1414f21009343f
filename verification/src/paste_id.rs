//! Paste identifiers: short strings drawn from the 62-symbol alphabet
//! `[0-9a-zA-Z]`, generated at random or validated from client input.

use vstd::prelude::*;
use vstd::string::*;

verus! {

/// Number of symbols identifiers are drawn from: digits, lowercase
/// letters, uppercase letters.
pub const ALPHABET_SIZE: usize = 62;

/// Default number of characters in a generated identifier.
pub const DEFAULT_ID_LENGTH: usize = 8;

/// Does `c` belong to the identifier alphabet `[0-9a-zA-Z]`?
pub open spec fn is_base62_char(c: char) -> bool {
    (48 <= c as int && c as int <= 57)  // '0' ..= '9'
    || (97 <= c as int && c as int <= 122)  // 'a' ..= 'z'
    || (65 <= c as int && c as int <= 90)  // 'A' ..= 'Z'
}

/// Every character of `s` belongs to the identifier alphabet.
pub open spec fn all_base62(s: Seq<char>) -> bool {
    forall|i: int| 0 <= i < s.len() ==> is_base62_char(s[i])
}

/// The symbol with ordinal `idx`: ordinals 0-9 map to '0'-'9',
/// 10-35 to 'a'-'z', 36-61 to 'A'-'Z'.
pub open spec fn base62_char_spec(idx: int) -> char
    recommends
        0 <= idx < 62,
{
    if idx < 10 {
        ((48 + idx) as u8) as char
    } else if idx < 36 {
        ((97 + (idx - 10)) as u8) as char
    } else {
        ((65 + (idx - 36)) as u8) as char
    }
}

/// The symbol with ordinal `idx` of the 62-symbol alphabet, digits first,
/// then lowercase, then uppercase.
pub fn base62_char(idx: usize) -> (c: char)
    requires
        idx < 62,
    ensures
        c == base62_char_spec(idx as int),
        is_base62_char(c),
{
    let b: u8 = if idx < 10 {
        48 + (idx as u8)
    } else if idx < 36 {
        97 + (idx as u8 - 10)
    } else {
        65 + (idx as u8 - 36)
    };
    b as char
}

/// Is `c` one of the 62 identifier symbols? Executable counterpart of
/// `is_base62_char`.
pub fn base62_char_ok(c: char) -> (r: bool)
    ensures
        r == is_base62_char(c),
{
    let n = c as u32;
    (48 <= n && n <= 57) || (97 <= n && n <= 122) || (65 <= n && n <= 90)
}

/// Returns `true` if every character of `id` belongs to the identifier
/// alphabet `[0-9a-zA-Z]`, and `false` otherwise. The empty string has no
/// character outside the alphabet, so it passes; rejecting empty path
/// segments is the routing layer's concern, not this check's.
pub fn is_base62(id: &str) -> (r: bool)
    ensures
        r == all_base62(id@),
{
    let len = id.unicode_len();
    let mut i: usize = 0;
    while i < len
        invariant
            len == id@.len(),
            i <= len,
            forall|j: int| 0 <= j < i ==> is_base62_char(id@[j]),
        decreases len - i,
    {
        if !base62_char_ok(id.get_char(i)) {
            return false;
        }
        i = i + 1;
    }
    true
}

/// A client-supplied string that failed the alphabet check; it carries the
/// offending string so the caller can report it.
pub struct InvalidIdentifier {
    pub offending: String,
}

/// A _probably_ unique paste identifier: an owned string whose characters
/// all come from the 62-symbol alphabet. Uniqueness is probabilistic
/// (birthday bound on `62^len`), never checked against existing storage.
pub struct PasteID {
    id: String,
}

impl View for PasteID {
    type V = Seq<char>;

    closed spec fn view(&self) -> Seq<char> {
        self.id@
    }
}

/// Relies on rand::random: one word drawn from the thread-local generator,
/// a fresh draw on every call; nothing is assumed of the value.
#[verifier::external_body]
fn random_word() -> u64 {
    rand::random::<u64>()
}

/// Relies on std's String::push: appends the given character to the end of
/// the string.
#[verifier::external_body]
fn push_char(s: &mut String, c: char)
    ensures
        final(s)@ == old(s)@.push(c),
{
    s.push(c)
}

impl PasteID {
    /// Generate a _probably_ unique identifier of `size` characters drawn
    /// independently and uniformly from the 62-symbol alphabet. No check is
    /// made against identifiers already in use: collisions stay possible,
    /// with probability governed by `62^size`.
    pub fn new(size: usize) -> (r: PasteID)
        requires
            1 <= size,
        ensures
            r@.len() == size,
            all_base62(r@),
    {
        let mut id = String::new();
        let mut n: usize = 0;
        while n < size
            invariant
                id@.len() == n,
                n <= size,
                all_base62(id@),
            decreases size - n,
        {
            let draw = random_word();
            let c = base62_char((draw % (ALPHABET_SIZE as u64)) as usize);
            push_char(&mut id, c);
            n = n + 1;
        }
        PasteID { id }
    }

    /// Accept `candidate` as an identifier exactly when every character
    /// belongs to the alphabet; the accepted identifier wraps the input
    /// string unchanged (no normalization). Characters such as `/` and `.`
    /// are outside the alphabet, so any path-traversal string is rejected
    /// here, the sole trust boundary in front of the store.
    pub fn validate(candidate: &str) -> (r: Result<PasteID, InvalidIdentifier>)
        ensures
            r is Ok <==> all_base62(candidate@),
            (r matches Ok(p) ==> p@ == candidate@),
            (r matches Err(e) ==> e.offending@ == candidate@),
    {
        if is_base62(candidate) {
            Ok(PasteID { id: candidate.to_owned() })
        } else {
            Err(InvalidIdentifier { offending: candidate.to_owned() })
        }
    }

    /// The identifier's string form, exactly the characters it was
    /// generated with or validated from.
    pub fn as_str(&self) -> (r: &str)
        ensures
            r@ == self@,
    {
        self.id.as_str()
    }

    /// The identifier's string form, borrowed as a `String`, for use as a
    /// store key.
    pub fn key(&self) -> (r: &String)
        ensures
            r@ == self@,
    {
        &self.id
    }
}

} // verus!
