//! How far a repository is trusted to hold the content that it is recorded to hold.

use vstd::prelude::*;
use crate::table::Dup;
use crate::tally::SameKey;
use crate::text::{chars_of, same_text, string_of, trim, trim_of, Text};

verus! {

/// How far a repository is trusted to keep what it has.
#[derive(Debug, Clone, Copy, PartialEq, Eq, Structural, Hash)]
pub enum TrustLevel {
    Trusted,
    SemiTrusted,
    UnTrusted,
    Dead,
}

impl DeepView for TrustLevel {
    type V = TrustLevel;

    open spec fn deep_view(&self) -> TrustLevel {
        *self
    }
}

impl Dup for TrustLevel {
    fn dup(&self) -> (r: Self) {
        *self
    }
}

impl SameKey for TrustLevel {
    fn same(&self, other: &Self) -> (r: bool) {
        *self == *other
    }
}

/// The level that a token stands for. The trust log writes `1`, `0`, `?` and `X`; letters and
/// words stand for the same levels. Whatever else there is counts as semitrusted.
pub open spec fn trust_of(token: Text) -> TrustLevel {
    let t = trim(token);
    if t == "1"@ || t == "T"@ || t == "t"@ || t == "trusted"@ {
        TrustLevel::Trusted
    } else if t == "0"@ || t == "U"@ || t == "u"@ || t == "untrusted"@ {
        TrustLevel::UnTrusted
    } else if t == "X"@ || t == "x"@ || t == "D"@ || t == "d"@ || t == "dead"@ {
        TrustLevel::Dead
    } else {
        TrustLevel::SemiTrusted
    }
}

/// The word for a level.
pub open spec fn trust_word(t: TrustLevel) -> Text {
    match t {
        TrustLevel::Trusted => "trusted"@,
        TrustLevel::SemiTrusted => "semitrusted"@,
        TrustLevel::UnTrusted => "untrusted"@,
        TrustLevel::Dead => "dead"@,
    }
}

/// The letter for a level.
pub open spec fn trust_letter(t: TrustLevel) -> char {
    match t {
        TrustLevel::Trusted => 'T',
        TrustLevel::SemiTrusted => '?',
        TrustLevel::UnTrusted => 'U',
        TrustLevel::Dead => 'D',
    }
}

impl TrustLevel {
    /// The level that a token from the trust log, or a shorthand for it, stands for.
    pub fn from_token(s: &str) -> (r: TrustLevel)
        ensures
            r == trust_of(s@),
    {
        let c = chars_of(s);
        let token = string_of(trim_of(c.as_slice()));
        let t = token.as_str();
        if same_text(t, "1") || same_text(t, "T") || same_text(t, "t") || same_text(t, "trusted") {
            TrustLevel::Trusted
        } else if same_text(t, "0") || same_text(t, "U") || same_text(t, "u") || same_text(
            t,
            "untrusted",
        ) {
            TrustLevel::UnTrusted
        } else if same_text(t, "X") || same_text(t, "x") || same_text(t, "D") || same_text(t, "d")
            || same_text(t, "dead") {
            TrustLevel::Dead
        } else {
            TrustLevel::SemiTrusted
        }
    }

    /// The word for the level.
    pub fn as_str(&self) -> (r: &'static str)
        ensures
            r@ == trust_word(*self),
    {
        match self {
            TrustLevel::Trusted => "trusted",
            TrustLevel::SemiTrusted => "semitrusted",
            TrustLevel::UnTrusted => "untrusted",
            TrustLevel::Dead => "dead",
        }
    }

    /// The letter for the level.
    pub fn short(&self) -> (r: char)
        ensures
            r == trust_letter(*self),
    {
        match self {
            TrustLevel::Trusted => 'T',
            TrustLevel::SemiTrusted => '?',
            TrustLevel::UnTrusted => 'U',
            TrustLevel::Dead => 'D',
        }
    }
}

/// The word for a level is read back as that level.
pub proof fn law_trust_word_read_back(t: TrustLevel)
    ensures
        trust_of(trust_word(t)) == t,
{
    reveal_strlit("1");
    reveal_strlit("T");
    reveal_strlit("t");
    reveal_strlit("trusted");
    reveal_strlit("0");
    reveal_strlit("U");
    reveal_strlit("u");
    reveal_strlit("untrusted");
    reveal_strlit("X");
    reveal_strlit("x");
    reveal_strlit("D");
    reveal_strlit("d");
    reveal_strlit("dead");
    reveal_strlit("semitrusted");
    let w = trust_word(t);
    assert(crate::text::trim_start(w) == w);
    assert(crate::text::trim_end(w) == w);
    match t {
        TrustLevel::Trusted => {},
        TrustLevel::SemiTrusted => {
            assert(w.len() == 11);
        },
        TrustLevel::UnTrusted => {
            assert(w.len() == 9);
            assert("trusted"@.len() == 7);
        },
        TrustLevel::Dead => {
            assert(w.len() == 4);
            assert("trusted"@.len() == 7);
            assert("untrusted"@.len() == 9);
        },
    }
}

/// The letter for a level is read back as that level.
pub proof fn law_trust_letter_read_back(t: TrustLevel)
    ensures
        trust_of(seq![trust_letter(t)]) == t,
{
    reveal_strlit("1");
    reveal_strlit("T");
    reveal_strlit("t");
    reveal_strlit("trusted");
    reveal_strlit("0");
    reveal_strlit("U");
    reveal_strlit("u");
    reveal_strlit("untrusted");
    reveal_strlit("X");
    reveal_strlit("x");
    reveal_strlit("D");
    reveal_strlit("d");
    reveal_strlit("dead");
    let w = seq![trust_letter(t)];
    assert(crate::text::trim_start(w) == w);
    assert(crate::text::trim_end(w) == w);
    assert("T"@ =~= seq!['T']);
    assert("U"@ =~= seq!['U']);
    assert("D"@ =~= seq!['D']);
    assert(w[0] == trust_letter(t));
    assert("1"@[0] == '1' && "t"@[0] == 't' && "0"@[0] == '0' && "u"@[0] == 'u');
    assert("X"@[0] == 'X' && "x"@[0] == 'x' && "d"@[0] == 'd');
}

} // verus!
