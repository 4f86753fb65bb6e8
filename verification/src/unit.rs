use vstd::prelude::*;
use vstd::string::StrSliceExecFns;

verus! {

/// The unit in which an angle is written.
#[derive(Debug, Clone, Copy, PartialEq, Eq, Hash, Structural)]
pub enum AngleUnit {
    Radian,
    Degree,
}

/// Whether `text` ends with `suffix`.
pub open spec fn ends_with(text: Seq<char>, suffix: Seq<char>) -> bool {
    suffix.len() <= text.len() && text.subrange(text.len() - suffix.len(), text.len() as int)
        == suffix
}

/// An angle text without its last `k` characters.
pub open spec fn without_last(text: Seq<char>, k: int) -> Seq<char> {
    text.subrange(0, text.len() - k)
}

/// The unit that the end of an angle text names, and the text before it: a degree sign,
/// `rad`, `deg`, `d` or `r`, looked for in this order.
pub open spec fn spec_split_angle(text: Seq<char>) -> Option<(AngleUnit, Seq<char>)> {
    if ends_with(text, seq!['\u{b0}']) {
        Some((AngleUnit::Degree, without_last(text, 1)))
    } else if ends_with(text, seq!['r', 'a', 'd']) {
        Some((AngleUnit::Radian, without_last(text, 3)))
    } else if ends_with(text, seq!['d', 'e', 'g']) {
        Some((AngleUnit::Degree, without_last(text, 3)))
    } else if ends_with(text, seq!['d']) {
        Some((AngleUnit::Degree, without_last(text, 1)))
    } else if ends_with(text, seq!['r']) {
        Some((AngleUnit::Radian, without_last(text, 1)))
    } else {
        None
    }
}

impl AngleUnit {
    /// The letter that marks the unit behind a number.
    pub open spec fn spec_suffix(self) -> char {
        match self {
            AngleUnit::Radian => 'r',
            AngleUnit::Degree => 'd',
        }
    }

    /// The letter that marks the unit behind a number: `r` or `d`.
    pub fn suffix(&self) -> (c: char)
        ensures
            c == self.spec_suffix(),
    {
        match self {
            AngleUnit::Radian => 'r',
            AngleUnit::Degree => 'd',
        }
    }
}

/// Parts an angle text such as `74.3d`, `-47.2deg`, `97.0r` or `-61.4rad` into its unit and
/// the text of its number. A text that ends in no unit gives `None`.
pub fn split_angle<'a>(text: &'a str) -> (r: Option<(AngleUnit, &'a str)>)
    ensures
        match r {
            Some((unit, number)) => spec_split_angle(text@) == Some((unit, number@)),
            None => spec_split_angle(text@) is None,
        },
{
    let n = text.unicode_len();
    if n == 0 {
        return None;
    }
    let last = text.get_char(n - 1);
    proof {
        let end = text@.subrange(n - 1, n as int);
        assert(end =~= seq![last]);
        assert(seq![last] == seq!['\u{b0}'] <==> last == '\u{b0}') by {
            if seq![last] == seq!['\u{b0}'] {
                assert(seq![last][0] == seq!['\u{b0}'][0]);
            }
        }
        assert(seq![last] == seq!['d'] <==> last == 'd') by {
            if seq![last] == seq!['d'] {
                assert(seq![last][0] == seq!['d'][0]);
            }
        }
        assert(seq![last] == seq!['r'] <==> last == 'r') by {
            if seq![last] == seq!['r'] {
                assert(seq![last][0] == seq!['r'][0]);
            }
        }
    }
    if last == '\u{b0}' {
        return Some((AngleUnit::Degree, text.substring_char(0, n - 1)));
    }
    if n >= 3 {
        let first = text.get_char(n - 3);
        let second = text.get_char(n - 2);
        proof {
            let end = text@.subrange(n - 3, n as int);
            assert(end =~= seq![first, second, last]);
            assert(seq![first, second, last] == seq!['r', 'a', 'd'] <==> first == 'r' && second
                == 'a' && last == 'd') by {
                if seq![first, second, last] == seq!['r', 'a', 'd'] {
                    assert(seq![first, second, last][0] == seq!['r', 'a', 'd'][0]);
                    assert(seq![first, second, last][1] == seq!['r', 'a', 'd'][1]);
                    assert(seq![first, second, last][2] == seq!['r', 'a', 'd'][2]);
                }
            }
            assert(seq![first, second, last] == seq!['d', 'e', 'g'] <==> first == 'd' && second
                == 'e' && last == 'g') by {
                if seq![first, second, last] == seq!['d', 'e', 'g'] {
                    assert(seq![first, second, last][0] == seq!['d', 'e', 'g'][0]);
                    assert(seq![first, second, last][1] == seq!['d', 'e', 'g'][1]);
                    assert(seq![first, second, last][2] == seq!['d', 'e', 'g'][2]);
                }
            }
        }
        if first == 'r' && second == 'a' && last == 'd' {
            return Some((AngleUnit::Radian, text.substring_char(0, n - 3)));
        }
        if first == 'd' && second == 'e' && last == 'g' {
            return Some((AngleUnit::Degree, text.substring_char(0, n - 3)));
        }
    }
    if last == 'd' {
        return Some((AngleUnit::Degree, text.substring_char(0, n - 1)));
    }
    if last == 'r' {
        return Some((AngleUnit::Radian, text.substring_char(0, n - 1)));
    }
    None
}

} // verus!
