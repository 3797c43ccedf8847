use vstd::prelude::*;

verus! {

/// Precedence rank of a symbol; larger binds tighter.
pub type OperatorPrecedence = usize;

/// What went wrong while turning a pattern into postfix form.
#[derive(Clone, Copy, Debug, PartialEq, Eq, Structural)]
pub enum RegexError {
    /// The pattern begins with an operator character.
    InvalidPatternStart,
    /// The pattern ends with a binary operator character.
    InvalidPatternEnd,
    /// Two operator characters stand together where they may not;
    /// carries the pair and its 0-based position in the raw pattern.
    IllegalOperatorSequence(char, char, usize),
    /// A backslash is followed by a character that is not a recognised escape.
    InvalidEscape(char),
    /// The pattern ends with an unescaped backslash.
    TrailingBackslash,
    /// An opening parenthesis without its closing one, or the reverse.
    UnbalancedParens,
}

/// Operator class of a symbol: postfix unary, infix binary, or not an operator.
#[derive(Clone, Copy, Debug, PartialEq, Eq, Structural)]
pub enum OperatorType {
    NonOperator,
    Unary,
    Binary,
}

/// One token of a regular expression.
#[derive(Clone, Copy, Debug, PartialEq, Eq, Structural)]
pub enum RegexSymbol {
    Optional,
    Plus,
    Star,
    Concat,
    Alternation,
    Open,
    Close,
    Char(char),
}

/// The symbol that an unescaped character denotes.
pub open spec fn spec_from_char(c: char) -> RegexSymbol {
    if c == '?' {
        RegexSymbol::Optional
    } else if c == '+' {
        RegexSymbol::Plus
    } else if c == '*' {
        RegexSymbol::Star
    } else if c == '|' {
        RegexSymbol::Alternation
    } else if c == '(' {
        RegexSymbol::Open
    } else if c == ')' {
        RegexSymbol::Close
    } else {
        RegexSymbol::Char(c)
    }
}

/// The literal symbol that an escaped character denotes, if the escape is legal.
pub open spec fn spec_escaped(c: char) -> Option<RegexSymbol> {
    if c == '?' || c == '+' || c == '*' || c == '|' || c == '(' || c == ')' || c == '\\' {
        Some(RegexSymbol::Char(c))
    } else if c == 't' {
        Some(RegexSymbol::Char('\t'))
    } else if c == 'b' {
        Some(RegexSymbol::Char('\u{0008}'))
    } else if c == 'n' {
        Some(RegexSymbol::Char('\n'))
    } else if c == 'r' {
        Some(RegexSymbol::Char('\r'))
    } else if c == 'f' {
        Some(RegexSymbol::Char('\u{000C}'))
    } else {
        None
    }
}

pub open spec fn spec_precedence(s: RegexSymbol) -> OperatorPrecedence {
    match s {
        RegexSymbol::Optional => 3,
        RegexSymbol::Plus => 3,
        RegexSymbol::Star => 3,
        RegexSymbol::Concat => 2,
        RegexSymbol::Alternation => 1,
        _ => 0,
    }
}

pub open spec fn spec_type(s: RegexSymbol) -> OperatorType {
    match s {
        RegexSymbol::Optional => OperatorType::Unary,
        RegexSymbol::Plus => OperatorType::Unary,
        RegexSymbol::Star => OperatorType::Unary,
        RegexSymbol::Concat => OperatorType::Binary,
        RegexSymbol::Alternation => OperatorType::Binary,
        _ => OperatorType::NonOperator,
    }
}

pub open spec fn spec_is_unary_operator(c: char) -> bool {
    c == '?' || c == '+' || c == '*'
}

pub open spec fn spec_is_binary_operator(c: char) -> bool {
    c == '|'
}

pub open spec fn spec_is_operator(c: char) -> bool {
    spec_is_unary_operator(c) || spec_is_binary_operator(c)
}

/// The single character that renders a symbol in the infix and postfix
/// string forms; concatenation renders as '.'.
pub open spec fn display_char(s: RegexSymbol) -> char {
    match s {
        RegexSymbol::Optional => '?',
        RegexSymbol::Plus => '+',
        RegexSymbol::Star => '*',
        RegexSymbol::Concat => '.',
        RegexSymbol::Alternation => '|',
        RegexSymbol::Open => '(',
        RegexSymbol::Close => ')',
        RegexSymbol::Char(c) => c,
    }
}

/// Relies on String::push: appends exactly the one character to the string.
#[verifier::external_body]
fn push_char(s: &mut String, c: char)
    ensures
        final(s)@ == old(s)@.push(c),
{
    s.push(c);
}

impl RegexSymbol {
    pub fn from_char(c: char) -> (s: RegexSymbol)
        ensures
            s == spec_from_char(c),
    {
        match c {
            '?' => RegexSymbol::Optional,
            '+' => RegexSymbol::Plus,
            '*' => RegexSymbol::Star,
            '|' => RegexSymbol::Alternation,
            '(' => RegexSymbol::Open,
            ')' => RegexSymbol::Close,
            c => RegexSymbol::Char(c),
        }
    }

    pub fn get_escaped(c: char) -> (r: Result<RegexSymbol, RegexError>)
        ensures
            match spec_escaped(c) {
                Some(s) => r == Ok::<RegexSymbol, RegexError>(s),
                None => r == Err::<RegexSymbol, RegexError>(RegexError::InvalidEscape(c)),
            },
    {
        match c {
            '?' => Ok(RegexSymbol::Char('?')),
            '+' => Ok(RegexSymbol::Char('+')),
            '*' => Ok(RegexSymbol::Char('*')),
            '|' => Ok(RegexSymbol::Char('|')),
            '(' => Ok(RegexSymbol::Char('(')),
            ')' => Ok(RegexSymbol::Char(')')),
            't' => Ok(RegexSymbol::Char('\t')),
            'b' => Ok(RegexSymbol::Char('\u{0008}')),
            'n' => Ok(RegexSymbol::Char('\n')),
            'r' => Ok(RegexSymbol::Char('\r')),
            'f' => Ok(RegexSymbol::Char('\u{000C}')),
            '\\' => Ok(RegexSymbol::Char('\\')),
            c => Err(RegexError::InvalidEscape(c)),
        }
    }

    pub fn get_precedence(&self) -> (p: OperatorPrecedence)
        ensures
            p == spec_precedence(*self),
    {
        match self {
            RegexSymbol::Optional => 3,
            RegexSymbol::Plus => 3,
            RegexSymbol::Star => 3,
            RegexSymbol::Concat => 2,
            RegexSymbol::Alternation => 1,
            _ => 0,
        }
    }

    pub fn get_type(&self) -> (t: OperatorType)
        ensures
            t == spec_type(*self),
    {
        match self {
            RegexSymbol::Optional => OperatorType::Unary,
            RegexSymbol::Plus => OperatorType::Unary,
            RegexSymbol::Star => OperatorType::Unary,
            RegexSymbol::Concat => OperatorType::Binary,
            RegexSymbol::Alternation => OperatorType::Binary,
            _ => OperatorType::NonOperator,
        }
    }

    pub fn is_operator(c: char) -> (r: bool)
        ensures
            r == spec_is_operator(c),
    {
        RegexSymbol::is_unary_operator(c) || RegexSymbol::is_binary_operator(c)
    }

    pub fn is_unary_operator(c: char) -> (r: bool)
        ensures
            r == spec_is_unary_operator(c),
    {
        c == '?' || c == '+' || c == '*'
    }

    pub fn is_binary_operator(c: char) -> (r: bool)
        ensures
            r == spec_is_binary_operator(c),
    {
        c == '|'
    }

    /// The one-character string form of the symbol.
    pub fn to_text(&self) -> (r: String)
        ensures
            r@ == seq![display_char(*self)],
    {
        let mut s = String::new();
        let c = match self {
            RegexSymbol::Optional => '?',
            RegexSymbol::Plus => '+',
            RegexSymbol::Star => '*',
            RegexSymbol::Concat => '.',
            RegexSymbol::Alternation => '|',
            RegexSymbol::Open => '(',
            RegexSymbol::Close => ')',
            RegexSymbol::Char(c) => *c,
        };
        push_char(&mut s, c);
        proof {
            assert(s@ =~= seq![display_char(*self)]);
        }
        s
    }
}

} // verus!
