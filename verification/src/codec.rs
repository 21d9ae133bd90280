//! The symbol table and the conversions between text and Morse notation.
//!
//! An [`Alphabet`] is an ordered list of (character, pattern) pairs. Encoding
//! upper-cases and trims its input, then replaces each mapped character by its
//! pattern followed by a space; decoding splits on single spaces and maps each
//! known pattern back to its character. Unmapped characters and tokens are
//! dropped silently: both conversions are total.

use vstd::prelude::*;
use vstd::string::StrSliceExecFns;
use vstd::string::StringExecFns;

use crate::MorseError;
use crate::text::is_ws;
use crate::text::push_char;
use crate::text::split_sp;
use crate::text::split_spaces;
use crate::text::to_upper;
use crate::text::trim_end_spec;
use crate::text::trim_spec;
use crate::text::trim_start_spec;
use crate::text::trim_str;
use crate::text::upper_of;
use crate::text::lemma_split_sp_no_space;

verus! {

/// The pattern of the first table entry for character `c`, if any.
pub open spec fn lookup_char(t: Seq<(char, Seq<char>)>, c: char) -> Option<Seq<char>>
    decreases t.len(),
{
    if t.len() == 0 {
        None
    } else if t[0].0 == c {
        Some(t[0].1)
    } else {
        lookup_char(t.drop_first(), c)
    }
}

/// The character of the first table entry whose pattern is `p`, if any.
pub open spec fn lookup_pattern(t: Seq<(char, Seq<char>)>, p: Seq<char>) -> Option<char>
    decreases t.len(),
{
    if t.len() == 0 {
        None
    } else if t[0].1 == p {
        Some(t[0].0)
    } else {
        lookup_pattern(t.drop_first(), p)
    }
}

/// What one character contributes to the raw encoding: its pattern followed
/// by a space, or nothing when the table does not map it.
pub open spec fn encode_char(t: Seq<(char, Seq<char>)>, c: char) -> Seq<char> {
    match lookup_char(t, c) {
        Some(p) => p.push(' '),
        None => Seq::<char>::empty(),
    }
}

/// The raw encoding of a normalized text: the concatenation of each
/// character's contribution, with a trailing space after every pattern.
pub open spec fn encode_raw(t: Seq<(char, Seq<char>)>, s: Seq<char>) -> Seq<char>
    decreases s.len(),
{
    if s.len() == 0 {
        Seq::<char>::empty()
    } else {
        encode_raw(t, s.drop_last()) + encode_char(t, s.last())
    }
}

/// The encoding of a normalized text: the raw encoding with the trailing
/// space (and any leading white space a pattern may carry) trimmed away.
pub open spec fn encode_spec(t: Seq<(char, Seq<char>)>, s: Seq<char>) -> Seq<char> {
    trim_spec(encode_raw(t, s))
}

/// What one token contributes to a decoding: the character the table maps it
/// to, or nothing when no pattern matches.
pub open spec fn decode_token(t: Seq<(char, Seq<char>)>, tok: Seq<char>) -> Seq<char> {
    match lookup_pattern(t, tok) {
        Some(c) => seq![c],
        None => Seq::<char>::empty(),
    }
}

/// The decoding of a token list: each token's contribution, concatenated.
pub open spec fn decode_tokens(t: Seq<(char, Seq<char>)>, toks: Seq<Seq<char>>) -> Seq<char>
    decreases toks.len(),
{
    if toks.len() == 0 {
        Seq::<char>::empty()
    } else {
        decode_tokens(t, toks.drop_last()) + decode_token(t, toks.last())
    }
}

/// The decoding of a normalized Morse text: its space-separated tokens, each
/// mapped through the table.
pub open spec fn decode_spec(t: Seq<(char, Seq<char>)>, s: Seq<char>) -> Seq<char> {
    decode_tokens(t, split_sp(s))
}

proof fn lemma_lookup_char_found(t: Seq<(char, Seq<char>)>, c: char, j: int)
    requires
        0 <= j < t.len(),
        forall|k: int| 0 <= k < j ==> t[k].0 != c,
        t[j].0 == c,
    ensures
        lookup_char(t, c) == Some(t[j].1),
    decreases j,
{
    if j > 0 {
        lemma_lookup_char_found(t.drop_first(), c, j - 1);
    }
}

proof fn lemma_lookup_char_none(t: Seq<(char, Seq<char>)>, c: char)
    requires
        forall|k: int| 0 <= k < t.len() ==> t[k].0 != c,
    ensures
        lookup_char(t, c) is None,
    decreases t.len(),
{
    if t.len() > 0 {
        lemma_lookup_char_none(t.drop_first(), c);
    }
}

proof fn lemma_lookup_pattern_found(t: Seq<(char, Seq<char>)>, p: Seq<char>, j: int)
    requires
        0 <= j < t.len(),
        forall|k: int| 0 <= k < j ==> t[k].1 != p,
        t[j].1 == p,
    ensures
        lookup_pattern(t, p) == Some(t[j].0),
    decreases j,
{
    if j > 0 {
        lemma_lookup_pattern_found(t.drop_first(), p, j - 1);
    }
}

proof fn lemma_lookup_pattern_none(t: Seq<(char, Seq<char>)>, p: Seq<char>)
    requires
        forall|k: int| 0 <= k < t.len() ==> t[k].1 != p,
    ensures
        lookup_pattern(t, p) is None,
    decreases t.len(),
{
    if t.len() > 0 {
        lemma_lookup_pattern_none(t.drop_first(), p);
    }
}

/// What `ron::from_str` yields for a list of (character, pattern) pairs: a
/// function of the input text alone.
pub uninterp spec fn ron_alphabet_of(s: Seq<char>) -> Option<Seq<(char, Seq<char>)>>;

/// Relies on `ron::from_str`: deserializes RON text into a list of
/// (character, pattern) pairs, failing exactly when the text is not a valid
/// RON value of that shape; the outcome depends on the input text alone.
#[verifier::external_body]
fn parse_alphabet_ron(s: &str) -> (r: Option<Vec<(char, String)>>)
    ensures
        match r {
            Some(v) => ron_alphabet_of(s@) == Some(v.deep_view()),
            None => ron_alphabet_of(s@) is None,
        },
{
    ron::from_str::<Vec<(char, String)>>(s).ok()
}

/// A Morse symbol table: an ordered list of (character, pattern) pairs,
/// immutable after construction. Lookups take the first matching entry.
#[derive(Debug)]
pub struct Alphabet {
    entries: Vec<(char, String)>,
}

impl View for Alphabet {
    type V = Seq<(char, Seq<char>)>;

    closed spec fn view(&self) -> Seq<(char, Seq<char>)> {
        self.entries.deep_view()
    }
}

impl Alphabet {
    /// Builds a table directly from (character, pattern) pairs, kept in order.
    pub fn from_pairs(entries: Vec<(char, String)>) -> (a: Alphabet)
        ensures
            a@ == entries.deep_view(),
    {
        Alphabet { entries }
    }

    /// Builds a table from its declarative RON form, a list of
    /// (character, pattern) pairs; text that does not parse as such a list is
    /// reported as an unavailable table.
    pub fn from_ron(text: &str) -> (r: Result<Alphabet, MorseError>)
        ensures
            match ron_alphabet_of(text@) {
                Some(t) => r is Ok && r->Ok_0@ == t,
                None => r == Err::<Alphabet, MorseError>(MorseError::TableUnavailable),
            },
    {
        match parse_alphabet_ron(text) {
            Some(v) => Ok(Alphabet::from_pairs(v)),
            None => Err(MorseError::TableUnavailable),
        }
    }

    /// The pattern of the first entry for `c`, scanned in table order.
    fn find_pattern(&self, c: char) -> (r: Option<&String>)
        ensures
            match r {
                Some(p) => lookup_char(self@, c) == Some(p@),
                None => lookup_char(self@, c) is None,
            },
    {
        let n = self.entries.len();
        let mut j: usize = 0;
        while j < n
            invariant
                n == self.entries.len(),
                0 <= j <= n,
                self@.len() == n,
                forall|k: int| 0 <= k < j ==> self@[k].0 != c,
                forall|k: int|
                    0 <= k < n ==> self@[k] == (self.entries@[k].0, self.entries@[k].1@),
            decreases n - j,
        {
            if self.entries[j].0 == c {
                proof {
                    lemma_lookup_char_found(self@, c, j as int);
                }
                return Some(&self.entries[j].1);
            }
            j = j + 1;
        }
        proof {
            lemma_lookup_char_none(self@, c);
        }
        None
    }

    /// The character of the first entry whose pattern equals `tok`, scanned
    /// in table order.
    fn find_character(&self, tok: &String) -> (r: Option<char>)
        ensures
            match r {
                Some(c) => lookup_pattern(self@, tok@) == Some(c),
                None => lookup_pattern(self@, tok@) is None,
            },
    {
        let n = self.entries.len();
        let mut j: usize = 0;
        while j < n
            invariant
                n == self.entries.len(),
                0 <= j <= n,
                self@.len() == n,
                forall|k: int| 0 <= k < j ==> self@[k].1 != tok@,
                forall|k: int|
                    0 <= k < n ==> self@[k] == (self.entries@[k].0, self.entries@[k].1@),
            decreases n - j,
        {
            if self.entries[j].1 == *tok {
                proof {
                    lemma_lookup_pattern_found(self@, tok@, j as int);
                }
                return Some(self.entries[j].0);
            }
            j = j + 1;
        }
        proof {
            lemma_lookup_pattern_none(self@, tok@);
        }
        None
    }

    /// Converts a string to Morse code.
    ///
    /// The input is trimmed and upper-cased; every mapped character is
    /// replaced by its pattern and a separating space, every unmapped one is
    /// dropped, and the trailing separator is trimmed from the result.
    pub fn to_morse(&self, message: &str) -> (r: String)
        ensures
            r@ == encode_spec(self@, upper_of(trim_spec(message@))),
    {
        let trimmed = trim_str(message);
        let upper = to_upper(trimmed);
        let us: &str = upper.as_str();
        let n = us.unicode_len();
        let mut out = String::new();
        let mut i: usize = 0;
        while i < n
            invariant
                n == us@.len(),
                0 <= i <= n,
                us@ == upper_of(trim_spec(message@)),
                out@ == encode_raw(self@, us@.take(i as int)),
            decreases n - i,
        {
            let ghost prev_out = out@;
            let c = us.get_char(i);
            match self.find_pattern(c) {
                Some(p) => {
                    out.append(p.as_str());
                    out.append(" ");
                    proof {
                        reveal_strlit(" ");
                        assert(" "@ =~= seq![' ']);
                        assert(out@ =~= prev_out + encode_char(self@, c));
                    }
                },
                None => {
                    proof {
                        assert(out@ =~= prev_out + encode_char(self@, c));
                    }
                },
            }
            proof {
                assert(us@.take(i + 1).drop_last() =~= us@.take(i as int));
                assert(us@.take(i + 1).last() == us@[i as int]);
            }
            i = i + 1;
        }
        proof {
            assert(us@.take(n as int) =~= us@);
        }
        let r = trim_str(out.as_str());
        r.to_owned()
    }

    /// Converts Morse code into a string.
    ///
    /// The input is trimmed and upper-cased, then split on single spaces;
    /// every token matching a pattern becomes its character, every other
    /// token is dropped.
    pub fn from_morse(&self, morse: &str) -> (r: String)
        ensures
            r@ == decode_spec(self@, upper_of(trim_spec(morse@))),
    {
        let trimmed = trim_str(morse);
        let upper = to_upper(trimmed);
        let tokens = split_spaces(upper.as_str());
        let n = tokens.len();
        proof {
            assert(tokens.deep_view().len() == n);
        }
        let mut out = String::new();
        let mut k: usize = 0;
        while k < n
            invariant
                n == tokens.len(),
                0 <= k <= n,
                tokens.deep_view() == split_sp(upper_of(trim_spec(morse@))),
                tokens.deep_view().len() == n,
                out@ == decode_tokens(self@, tokens.deep_view().take(k as int)),
            decreases n - k,
        {
            let ghost prev_out = out@;
            let ghost dv = tokens.deep_view();
            proof {
                assert(dv[k as int] == tokens@[k as int]@);
            }
            match self.find_character(&tokens[k]) {
                Some(c) => {
                    push_char(&mut out, c);
                    proof {
                        assert(out@ =~= prev_out + decode_token(self@, dv[k as int]));
                    }
                },
                None => {
                    proof {
                        assert(out@ =~= prev_out + decode_token(self@, dv[k as int]));
                    }
                },
            }
            proof {
                assert(dv.take(k + 1).drop_last() =~= dv.take(k as int));
                assert(dv.take(k + 1).last() == dv[k as int]);
            }
            k = k + 1;
        }
        proof {
            assert(tokens.deep_view().take(n as int) =~= tokens.deep_view());
        }
        out
    }
}

/// Round trip: a character whose table pattern is non-empty, free of white
/// space, and mapped back to that character by pattern lookup decodes, after
/// encoding, to exactly itself.
pub proof fn lemma_round_trip(t: Seq<(char, Seq<char>)>, c: char)
    requires
        lookup_char(t, c) is Some,
        lookup_char(t, c)->Some_0.len() > 0,
        forall|k: int|
            0 <= k < lookup_char(t, c)->Some_0.len() ==> !is_ws(lookup_char(t, c)->Some_0[k]),
        lookup_pattern(t, lookup_char(t, c)->Some_0) == Some(c),
    ensures
        decode_spec(t, encode_spec(t, seq![c])) == seq![c],
{
    let p = lookup_char(t, c)->Some_0;
    assert(seq![c].drop_last() =~= Seq::<char>::empty());
    assert(seq![c].last() == c);
    assert(encode_raw(t, Seq::<char>::empty()) =~= Seq::<char>::empty());
    assert(encode_raw(t, seq![c]) =~= p.push(' '));
    // Trimming the raw encoding leaves exactly the pattern.
    assert(!is_ws(p[0]));
    assert(p.push(' ')[0] == p[0]);
    assert(trim_start_spec(p.push(' ')) == p.push(' '));
    assert(p.push(' ').last() == ' ');
    assert(p.push(' ').drop_last() =~= p);
    assert(trim_end_spec(p.push(' ')) == trim_end_spec(p));
    assert(!is_ws(p.last()));
    assert(trim_end_spec(p) == p);
    assert(encode_spec(t, seq![c]) == p);
    // A space-free pattern is one token, and it decodes to `c`.
    assert(forall|k: int| 0 <= k < p.len() ==> p[k] != ' ');
    lemma_split_sp_no_space(p);
    assert(split_sp(p).drop_last() =~= Seq::<Seq<char>>::empty());
    assert(split_sp(p).last() == p);
    assert(decode_tokens(t, Seq::<Seq<char>>::empty()) =~= Seq::<char>::empty());
    assert(decode_tokens(t, split_sp(p)) =~= seq![c]);
}

/// The characters of `s` that the table maps, in order.
pub open spec fn mapped_only(t: Seq<(char, Seq<char>)>, s: Seq<char>) -> Seq<char>
    decreases s.len(),
{
    if s.len() == 0 {
        Seq::<char>::empty()
    } else {
        mapped_only(t, s.drop_last()) + (if lookup_char(t, s.last()) is Some {
            seq![s.last()]
        } else {
            Seq::<char>::empty()
        })
    }
}

/// Unmapped characters vanish without residue: the raw encoding of a text is
/// the raw encoding of just its mapped characters.
pub proof fn lemma_unmapped_vanish(t: Seq<(char, Seq<char>)>, s: Seq<char>)
    ensures
        encode_raw(t, s) == encode_raw(t, mapped_only(t, s)),
    decreases s.len(),
{
    if s.len() > 0 {
        lemma_unmapped_vanish(t, s.drop_last());
        let m = mapped_only(t, s.drop_last());
        if lookup_char(t, s.last()) is Some {
            assert((m + seq![s.last()]).drop_last() =~= m);
            assert((m + seq![s.last()]).last() == s.last());
            assert(encode_raw(t, mapped_only(t, s)) =~= encode_raw(t, s));
        } else {
            assert(mapped_only(t, s) =~= m);
            assert(encode_raw(t, s) =~= encode_raw(t, m));
        }
    }
}

} // verus!
