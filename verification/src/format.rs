//! The two display formats, the rule that selects between them, and the table
//! of magnitude suffixes that the compact format draws on.

use vstd::prelude::*;

verus! {

/// Exponents from zero up to, but not including, this limit are shown in
/// compact form: nine magnitude tiers of three decimal digits each.
pub const COMPACT_LIMIT: i32 = 27;

/// How a number is written out.
#[derive(Clone, Copy, Debug, PartialEq, Eq, Structural)]
pub enum Format {
    /// A short decimal followed by a magnitude suffix, such as `12.3K`.
    Compact,
    /// A mantissa and a power of ten, such as `1.5x10^30`.
    Exponential,
}

/// The format that belongs to an exponent.
pub open spec fn format_of(exponent: int) -> Format {
    if 0 <= exponent < COMPACT_LIMIT {
        Format::Compact
    } else {
        Format::Exponential
    }
}

/// Selects the display format for an exponent.
pub fn select_format(exponent: i32) -> (format: Format)
    ensures
        format == format_of(exponent as int),
{
    if 0 <= exponent && exponent < COMPACT_LIMIT {
        Format::Compact
    } else {
        Format::Exponential
    }
}

/// Whether `c` is an ASCII letter.
pub open spec fn is_alpha(c: char) -> bool {
    (65 <= c as u32 && c as u32 <= 90) || (97 <= c as u32 && c as u32 <= 122)
}

/// Tells whether a character is an ASCII letter.
pub fn is_alpha_char(c: char) -> (b: bool)
    ensures
        b == is_alpha(c),
{
    let code: u32 = c as u32;
    (65 <= code && code <= 90) || (97 <= code && code <= 122)
}

/// The suffix of a magnitude tier. Tier `i` covers the exponents from `3i` up
/// to `3i + 2`. Tier zero has no suffix, and there is none past the eighth.
pub open spec fn suffix_of(tier: int) -> Seq<char> {
    if tier == 1 {
        seq!['K']
    } else if tier == 2 {
        seq!['M']
    } else if tier == 3 {
        seq!['B']
    } else if tier == 4 {
        seq!['T']
    } else if tier == 5 {
        seq!['Q', 'D']
    } else if tier == 6 {
        seq!['Q', 'N']
    } else if tier == 7 {
        seq!['S', 'X']
    } else if tier == 8 {
        seq!['S', 'P']
    } else {
        Seq::empty()
    }
}

/// The tier whose suffix is `suffix`, if there is one.
pub open spec fn tier_of(suffix: Seq<char>) -> Option<int> {
    if exists|tier: int| 1 <= tier <= 8 && suffix_of(tier) == suffix {
        Some(choose|tier: int| 1 <= tier <= 8 && suffix_of(tier) == suffix)
    } else {
        None
    }
}

/// Each tier from the first to the eighth has a suffix of its own, made of one
/// or two letters, and no suffix is the beginning of another. So a suffix
/// found at the end of a text names exactly one tier.
pub proof fn law_suffix_table(tier: int, other: int)
    requires
        1 <= tier <= 8,
        1 <= other <= 8,
    ensures
        1 <= suffix_of(tier).len() <= 2,
        forall|i: int| 0 <= i < suffix_of(tier).len() ==> is_alpha(#[trigger] suffix_of(tier)[i]),
        tier_of(suffix_of(tier)) == Some(tier),
        tier != other ==> !suffix_of(tier).is_prefix_of(suffix_of(other)),
{
    assert forall|a: int, b: int| 1 <= a <= 8 && 1 <= b <= 8 && a != b implies suffix_of(a)
        != suffix_of(b) by {
        lemma_suffixes_differ(a, b);
    }
    if tier != other {
        lemma_suffixes_differ(tier, other);
        if suffix_of(tier).is_prefix_of(suffix_of(other)) {
            assert(suffix_of(tier)[0] == suffix_of(other).subrange(
                0,
                suffix_of(tier).len() as int,
            )[0]);
            if suffix_of(tier).len() == 2 {
                assert(suffix_of(tier)[1] == suffix_of(other).subrange(0, 2)[1]);
            }
        }
    }
}

/// Two different tiers have different suffixes.
proof fn lemma_suffixes_differ(a: int, b: int)
    requires
        1 <= a <= 8,
        1 <= b <= 8,
        a != b,
    ensures
        suffix_of(a) != suffix_of(b),
{
    let x: Seq<char> = suffix_of(a);
    let y: Seq<char> = suffix_of(b);
    if x.len() == y.len() {
        if x.len() == 1 {
            assert(x[0] != y[0]);
        } else {
            assert(x[0] != y[0] || x[1] != y[1]);
        }
    }
}

/// The suffix of a tier as text.
pub fn suffix_text(tier: u8) -> (text: &'static str)
    requires
        tier <= 8,
    ensures
        text@ == suffix_of(tier as int),
{
    proof {
        reveal_strlit("");
        reveal_strlit("K");
        reveal_strlit("M");
        reveal_strlit("B");
        reveal_strlit("T");
        reveal_strlit("QD");
        reveal_strlit("QN");
        reveal_strlit("SX");
        reveal_strlit("SP");
    }
    let text: &'static str = if tier == 0 {
        ""
    } else if tier == 1 {
        "K"
    } else if tier == 2 {
        "M"
    } else if tier == 3 {
        "B"
    } else if tier == 4 {
        "T"
    } else if tier == 5 {
        "QD"
    } else if tier == 6 {
        "QN"
    } else if tier == 7 {
        "SX"
    } else {
        "SP"
    };
    assert(text@ =~= suffix_of(tier as int));
    text
}

/// Looks a suffix up in the table.
pub fn find_tier(suffix: &[char]) -> (tier: Option<u8>)
    ensures
        tier matches Some(t) ==> 1 <= t <= 8 && tier_of(suffix@) == Some(t as int),
        tier is None ==> tier_of(suffix@) is None,
{
    let mut found: Option<u8> = None;
    if suffix.len() == 1 {
        let c: char = suffix[0];
        if c == 'K' {
            found = Some(1);
        } else if c == 'M' {
            found = Some(2);
        } else if c == 'B' {
            found = Some(3);
        } else if c == 'T' {
            found = Some(4);
        }
    } else if suffix.len() == 2 {
        let c: char = suffix[0];
        let d: char = suffix[1];
        if c == 'Q' && d == 'D' {
            found = Some(5);
        } else if c == 'Q' && d == 'N' {
            found = Some(6);
        } else if c == 'S' && d == 'X' {
            found = Some(7);
        } else if c == 'S' && d == 'P' {
            found = Some(8);
        }
    }
    proof {
        match found {
            Some(t) => {
                assert(suffix@ =~= suffix_of(t as int));
                assert forall|other: int| 1 <= other <= 8 && suffix_of(other) == suffix@ implies other
                    == t by {
                    if other != t {
                        lemma_suffixes_differ(other, t as int);
                    }
                }
            },
            None => {
                assert forall|other: int| 1 <= other <= 8 implies suffix_of(other) != suffix@ by {
                    let s: Seq<char> = suffix_of(other);
                    if s == suffix@ {
                        assert(s[0] == suffix@[0]);
                        if s.len() == 2 {
                            assert(s[1] == suffix@[1]);
                        }
                    }
                }
            },
        }
    }
    found
}

} // verus!
