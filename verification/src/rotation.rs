use vstd::prelude::*;

verus! {

/// One of the three axes that an Euler rotation turns about.
#[derive(Debug, Clone, Copy, PartialEq, Eq, Hash, Structural)]
pub enum EulerAxis {
    Roll,
    Pitch,
    Yaw,
}

/// A character that names no axis.
#[derive(Debug, Clone, Copy, PartialEq, Eq, Structural)]
pub struct UnexpectedAxisCode {
    pub code: char,
}

impl EulerAxis {
    /// The axis that a one-letter code names, if it names one.
    pub open spec fn spec_from_char(code: char) -> Option<EulerAxis> {
        if code == 'r' {
            Some(EulerAxis::Roll)
        } else if code == 'p' {
            Some(EulerAxis::Pitch)
        } else if code == 'y' {
            Some(EulerAxis::Yaw)
        } else {
            None
        }
    }

    /// The one-letter code of an axis.
    pub open spec fn spec_to_char(self) -> char {
        match self {
            EulerAxis::Roll => 'r',
            EulerAxis::Pitch => 'p',
            EulerAxis::Yaw => 'y',
        }
    }

    /// Reads an axis from its one-letter code: `r`, `p` or `y`. Any other character is
    /// handed back in the error.
    pub fn from_char(code: char) -> (r: Result<EulerAxis, UnexpectedAxisCode>)
        ensures
            r == match Self::spec_from_char(code) {
                Some(axis) => Ok::<EulerAxis, UnexpectedAxisCode>(axis),
                None => Err(UnexpectedAxisCode { code }),
            },
    {
        match code {
            'r' => Ok(EulerAxis::Roll),
            'p' => Ok(EulerAxis::Pitch),
            'y' => Ok(EulerAxis::Yaw),
            _ => Err(UnexpectedAxisCode { code }),
        }
    }

    /// The one-letter code of this axis.
    pub fn to_char(&self) -> (c: char)
        ensures
            c == self.spec_to_char(),
    {
        match self {
            EulerAxis::Roll => 'r',
            EulerAxis::Pitch => 'p',
            EulerAxis::Yaw => 'y',
        }
    }
}

/// Reading back the code of an axis gives that axis.
pub proof fn lemma_code_round_trip(axis: EulerAxis)
    ensures
        EulerAxis::spec_from_char(axis.spec_to_char()) == Some(axis),
{
}

/// The order in which the angles of an Euler rotation are applied.
#[derive(Debug, Clone, PartialEq, Eq, Hash)]
pub struct EulerAxisOrder(pub Vec<EulerAxis>);

/// `String::push`: one character more at the end of a text.
#[verifier::external_body]
fn push_char(text: &mut String, c: char)
    ensures
        final(text)@ == old(text)@.push(c),
{
    text.push(c)
}

impl EulerAxisOrder {
    /// The codes of the axes, one after the other.
    pub open spec fn spec_codes(self) -> Seq<char> {
        Seq::new(self.0.len() as nat, |i: int| self.0[i].spec_to_char())
    }

    /// Writes the order as the codes of its axes, such as `rpy`.
    pub fn to_string(&self) -> (text: String)
        ensures
            text@ == self.spec_codes(),
    {
        let mut text = String::new();
        let mut i: usize = 0;
        while i < self.0.len()
            invariant
                i <= self.0.len(),
                text@ == self.spec_codes().take(i as int),
            decreases self.0.len() - i,
        {
            push_char(&mut text, self.0[i].to_char());
            assert(self.spec_codes().take(i as int).push(self.0[i as int].spec_to_char())
                =~= self.spec_codes().take(i + 1));
            i = i + 1;
        }
        assert(self.spec_codes().take(self.0.len() as int) =~= self.spec_codes());
        text
    }

    /// Reads an order from the codes of its axes. The first character that names no axis
    /// is handed back in the error.
    pub fn from_str(text: &str) -> (r: Result<EulerAxisOrder, UnexpectedAxisCode>)
        ensures
            match r {
                Ok(order) => order.spec_codes() == text@,
                Err(e) => exists|i: int|
                    0 <= i < text@.len() && EulerAxis::spec_from_char(#[trigger] text@[i]) is None
                        && e.code == text@[i] && forall|j: int|
                        0 <= j < i ==> EulerAxis::spec_from_char(#[trigger] text@[j]) is Some,
            },
    {
        let mut axes: Vec<EulerAxis> = Vec::new();
        for c in it: text.chars()
            invariant
                it.seq() == text@,
                axes.len() == it.index(),
                forall|j: int|
                    0 <= j < it.index() ==> EulerAxis::spec_from_char(#[trigger] text@[j]) == Some(
                        axes[j],
                    ),
        {
            match EulerAxis::from_char(c) {
                Ok(axis) => {
                    axes.push(axis);
                },
                Err(e) => {
                    return Err(e);
                },
            }
        }
        let order = EulerAxisOrder(axes);
        assert(order.spec_codes() =~= text@);
        Ok(order)
    }
}

} // verus!
