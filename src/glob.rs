//! KEYS patterns: a glob where `*` matches any run of bytes and `?` any one
//! byte, every other byte standing for itself. A pattern is matched through
//! a byte regular expression built from it.
use vstd::prelude::*;

verus! {

/// Whether the pattern holds a wildcard.
pub open spec fn has_wildcard(p: Seq<u8>) -> bool {
    exists|i: int| 0 <= i < p.len() && (p[i] == 42u8 || p[i] == 63u8)
}

/// Whether `p` holds `*` or `?`.
pub fn contains_wildcard(p: &[u8]) -> (r: bool)
    ensures
        r == has_wildcard(p@),
{
    let mut k: usize = 0;
    while k < p.len()
        invariant
            k <= p.len(),
            forall|i: int| 0 <= i < k ==> p@[i] != 42u8 && p@[i] != 63u8,
        decreases p.len() - k,
    {
        if p[k] == 42u8 || p[k] == 63u8 {
            return true;
        }
        k = k + 1;
    }
    false
}

/// A lower-case hexadecimal digit.
pub open spec fn hex_digit(d: int) -> u8 {
    if d < 10 {
        (48 + d) as u8
    } else {
        (87 + d) as u8
    }
}

/// The regular expression text for one pattern byte: `.*` for `*`, `.` for
/// `?`, and the byte itself written `\xHH` otherwise.
pub open spec fn regex_piece(b: u8) -> Seq<u8> {
    if b == 42u8 {
        seq![46u8, 42u8]
    } else if b == 63u8 {
        seq![46u8]
    } else {
        seq![92u8, 120u8, hex_digit(b as int / 16), hex_digit(b as int % 16)]
    }
}

pub open spec fn regex_pieces(p: Seq<u8>) -> Seq<u8>
    decreases p.len(),
{
    if p.len() == 0 {
        Seq::empty()
    } else {
        regex_pieces(p.drop_last()) + regex_piece(p.last())
    }
}

/// `(?s-u)\A` : bytes mode, `.` takes any byte, anchored at the start.
pub open spec fn regex_head() -> Seq<u8> {
    seq![40u8, 63u8, 115u8, 45u8, 117u8, 41u8, 92u8, 65u8]
}

/// `\z`: anchored at the end.
pub open spec fn regex_tail() -> Seq<u8> {
    seq![92u8, 122u8]
}

/// The regular expression that matches exactly the byte strings that the
/// glob `p` matches whole.
pub open spec fn glob_regex(p: Seq<u8>) -> Seq<u8> {
    regex_head() + regex_pieces(p) + regex_tail()
}

/// Whether `regex::bytes::Regex::new` accepts the pattern text.
pub uninterp spec fn regex_compiles(pattern: Seq<u8>) -> bool;

/// Whether the regex compiled from the pattern text matches somewhere in `text`.
pub uninterp spec fn regex_accepts(pattern: Seq<u8>, text: Seq<u8>) -> bool;

/// Whether key `k` matches KEYS pattern `p`: the regex built from `p`
/// compiles and matches it.
pub open spec fn key_matches(p: Seq<u8>, k: Seq<u8>) -> bool {
    regex_compiles(glob_regex(p)) && regex_accepts(glob_regex(p), k)
}

/// Relies on `regex::bytes::Regex::new`, which compiles the pattern text or
/// refuses it, and on `regex::bytes::Regex::is_match`, whether the compiled
/// regex matches somewhere in `text`. The pattern text is ASCII, so the lossy
/// conversion keeps it as is.
#[verifier::external_body]
fn regex_match(pattern: &[u8], text: &[u8]) -> (r: Option<bool>)
    ensures
        r is Some <==> regex_compiles(pattern@),
        r matches Some(b) ==> b == regex_accepts(pattern@, text@),
{
    match regex::bytes::Regex::new(&String::from_utf8_lossy(pattern)) {
        Ok(re) => Some(re.is_match(text)),
        Err(_) => None,
    }
}

/// The regex text for a glob.
pub fn glob_to_regex(p: &[u8]) -> (r: Vec<u8>)
    ensures
        r@ == glob_regex(p@),
{
    let mut r: Vec<u8> = Vec::new();
    r.push(40u8);
    r.push(63u8);
    r.push(115u8);
    r.push(45u8);
    r.push(117u8);
    r.push(41u8);
    r.push(92u8);
    r.push(65u8);
    proof {
        assert(r@ =~= regex_head());
        assert(p@.subrange(0, 0) =~= Seq::<u8>::empty());
        assert(r@ =~= regex_head() + regex_pieces(p@.subrange(0, 0)));
    }
    let mut k: usize = 0;
    while k < p.len()
        invariant
            k <= p.len(),
            r@ == regex_head() + regex_pieces(p@.subrange(0, k as int)),
        decreases p.len() - k,
    {
        let b = p[k];
        let ghost r0 = r@;
        if b == 42u8 {
            r.push(46u8);
            r.push(42u8);
        } else if b == 63u8 {
            r.push(46u8);
        } else {
            let hi = b / 16;
            let lo = b % 16;
            r.push(92u8);
            r.push(120u8);
            r.push(if hi < 10 { 48 + hi } else { 87 + hi });
            r.push(if lo < 10 { 48 + lo } else { 87 + lo });
        }
        proof {
            assert(p@.subrange(0, k + 1).drop_last() =~= p@.subrange(0, k as int));
            assert(r@ =~= r0 + regex_piece(b));
            assert(r@ =~= regex_head() + regex_pieces(p@.subrange(0, k + 1)));
        }
        k = k + 1;
    }
    r.push(92u8);
    r.push(122u8);
    proof {
        assert(p@.subrange(0, k as int) =~= p@);
        assert(r@ =~= glob_regex(p@));
    }
    r
}

/// A KEYS pattern with its regex text.
pub struct GlobMatcher {
    glob: Vec<u8>,
    source: Vec<u8>,
}

impl GlobMatcher {
    /// The glob this matcher was built from.
    pub closed spec fn pattern(&self) -> Seq<u8> {
        self.glob@
    }

    /// The regex text is the one for the glob.
    pub closed spec fn wf(&self) -> bool {
        self.source@ == glob_regex(self.glob@)
    }

    /// A matcher for the glob `p`.
    pub fn new(p: &[u8]) -> (r: GlobMatcher)
        ensures
            r.wf(),
            r.pattern() == p@,
    {
        GlobMatcher { glob: crate::resp::copy_bytes(p), source: glob_to_regex(p) }
    }

    /// Whether `text` matches the glob; nothing matches a pattern whose
    /// regex does not compile.
    pub fn matches(&self, text: &[u8]) -> (r: bool)
        requires
            self.wf(),
        ensures
            r == key_matches(self.pattern(), text@),
    {
        match regex_match(self.source.as_slice(), text) {
            Some(b) => b,
            None => false,
        }
    }
}

} // verus!
