//! Lexical analysis: expressions are cleaned of spaces and divided into
//! tokens. The division is a scan from left to right that looks at one
//! character and, for a number or a name, at the run that it starts.

use crate::algebra_parser::Definition;
use crate::text::to_chars;
use vstd::prelude::*;

verus! {

/// The pieces that an expression is divided into. A variable and a number
/// carry the length that the scan counted for them.
#[derive(Clone, Copy, Debug, PartialEq, Eq, Structural)]
pub enum Tokens {
    ParenthesisLeft,
    ParenthesisRight,
    Function,
    Exponent,
    Mul,
    Div,
    Add,
    Sub,
    Procedure(i32),
    Variable(i32),
    Number(i32),
}

/// Why an expression could not be divided into tokens.
#[derive(Clone, Copy, Debug, PartialEq, Eq, Structural)]
pub enum LexicalError {
    /// A name is followed by something that is neither a letter nor an
    /// operation.
    ProcedureSyntax,
    /// The parentheses that the scan has seen do not pair up.
    ParenthesisAssign,
}

impl LexicalError {
    /// The message that belongs to the error.
    pub fn message(&self) -> (text: &'static str)
        ensures
            *self == LexicalError::ProcedureSyntax ==> text@
                == "Attempted to locate procedure: Unsucessful"@,
            *self == LexicalError::ParenthesisAssign ==> text@
                == "Could not find correspondence for every parenthesis"@,
    {
        match self {
            LexicalError::ProcedureSyntax => "Attempted to locate procedure: Unsucessful",
            LexicalError::ParenthesisAssign => "Could not find correspondence for every parenthesis",
        }
    }
}

/// The tokens of a function, under its name.
pub struct Tokenized {
    pub name: String,
    pub tokens: Vec<Tokens>,
}

/// A character together with what Unicode says of it: whether it is
/// alphabetic, and whether it is numeric. The scan reads nothing else of a
/// character.
#[derive(Clone, Copy, Debug, PartialEq, Eq, Structural)]
pub struct Classified {
    pub character: char,
    pub alphabetic: bool,
    pub numeric: bool,
}

/// Whether Unicode counts a character as alphabetic, as `char::is_alphabetic`
/// tells it.
pub uninterp spec fn unicode_alphabetic(c: char) -> bool;

/// Whether Unicode counts a character as numeric, as `char::is_numeric` tells
/// it.
pub uninterp spec fn unicode_numeric(c: char) -> bool;

/// `char::is_alphabetic` of the standard library. Not verified: the contract
/// only gives its answer a name, which is a matter of the character alone.
pub assume_specification[ char::is_alphabetic ](c: char) -> (b: bool)
    ensures
        b == unicode_alphabetic(c),
;

/// `char::is_numeric` of the standard library. Not verified: the contract
/// only gives its answer a name, which is a matter of the character alone.
pub assume_specification[ char::is_numeric ](c: char) -> (b: bool)
    ensures
        b == unicode_numeric(c),
;

/// `String::push` of the standard library. Not verified: the contract says
/// that the character is appended at the end.
pub assume_specification[ String::push ](s: &mut String, c: char)
    ensures
        final(s)@ == old(s)@.push(c),
;

/// A text with its spaces taken out.
pub open spec fn without_spaces(s: Seq<char>) -> Seq<char>
    decreases s.len(),
{
    if s.len() == 0 {
        s
    } else if s.last() == ' ' {
        without_spaces(s.drop_last())
    } else {
        without_spaces(s.drop_last()).push(s.last())
    }
}

/// Taking spaces out makes no text longer.
pub proof fn lemma_without_spaces_shorter(s: Seq<char>)
    ensures
        without_spaces(s).len() <= s.len(),
    decreases s.len(),
{
    if s.len() > 0 {
        lemma_without_spaces_shorter(s.drop_last());
    }
}

/// The operation that a character stands for, if any.
pub open spec fn operation_of(c: char) -> Option<Tokens> {
    if c == '(' {
        Some(Tokens::ParenthesisLeft)
    } else if c == ')' {
        Some(Tokens::ParenthesisRight)
    } else if c == '^' {
        Some(Tokens::Exponent)
    } else if c == '*' {
        Some(Tokens::Mul)
    } else if c == '/' {
        Some(Tokens::Div)
    } else if c == '+' {
        Some(Tokens::Add)
    } else if c == '-' {
        Some(Tokens::Sub)
    } else {
        None
    }
}

/// The priority of a token. The tens tell the rank by which tokens are
/// compared; the units only tell tokens of one rank apart.
pub open spec fn priority_of(token: Tokens) -> int {
    match token {
        Tokens::ParenthesisLeft => 61,
        Tokens::ParenthesisRight => 60,
        Tokens::Function => 50,
        Tokens::Exponent => 40,
        Tokens::Mul => 31,
        Tokens::Div => 30,
        Tokens::Add => 20,
        Tokens::Sub => 10,
        Tokens::Procedure(_) => 3,
        Tokens::Variable(_) => 2,
        Tokens::Number(_) => 1,
    }
}

/// A character with its classes.
pub open spec fn classify(c: char) -> Classified {
    Classified { character: c, alphabetic: unicode_alphabetic(c), numeric: unicode_numeric(c) }
}

/// The characters of a text, each with its classes.
pub open spec fn classified(s: Seq<char>) -> Seq<Classified> {
    Seq::new(s.len(), |i: int| classify(s[i]))
}

/// Whether a character belongs to a number: a numeric character or a point.
pub open spec fn in_number(c: Classified) -> bool {
    c.numeric || c.character == '.'
}

/// Where the run of number characters that starts at `from` ends.
pub open spec fn number_end(s: Seq<Classified>, from: int) -> int
    decreases s.len() - from,
{
    if 0 <= from < s.len() && in_number(s[from]) {
        number_end(s, from + 1)
    } else {
        from
    }
}

/// Where the run of alphabetic characters that starts at `from` ends.
pub open spec fn name_end(s: Seq<Classified>, from: int) -> int
    decreases s.len() - from,
{
    if 0 <= from < s.len() && s[from].alphabetic {
        name_end(s, from + 1)
    } else {
        from
    }
}

/// What one step of the scan does at a position.
pub enum Step {
    /// A token is taken, or none, and the scan goes on at `next`.
    Going { token: Option<Tokens>, next: int },
    /// The scan gives up.
    Failed,
}

/// The step of the scan at position `i`, which must be within `s`.
///
/// A numeric character starts a number: the scan counts the characters of the
/// run of number characters, and the one that ends the run if there is one,
/// and goes on behind one further character. An alphabetic character starts a
/// name: the scan looks from the character before it for the first character
/// that is not alphabetic. If there is none, no token is taken and the scan
/// is at its end. If it is an operation, the token is a variable with the
/// count of the characters before it, and the scan goes on behind one
/// further character. Anything else fails. Any other character is taken as
/// the operation it stands for, or passed over.
pub open spec fn step_at(s: Seq<Classified>, i: int) -> Step {
    let c: Classified = s[i];
    if c.numeric {
        let end: int = number_end(s, i);
        let count: int = if end < s.len() {
            end - i + 1
        } else {
            end - i
        };
        Step::Going { token: Some(Tokens::Number(count as i32)), next: i + count + 1 }
    } else if c.alphabetic {
        let start: int = if i >= 1 {
            i - 1
        } else {
            0
        };
        let end: int = name_end(s, start);
        if end >= s.len() {
            Step::Going { token: None, next: s.len() as int }
        } else if operation_of(s[end].character) is Some {
            Step::Going {
                token: Some(Tokens::Variable((end - start) as i32)),
                next: i + (end - start) + 2,
            }
        } else {
            Step::Failed
        }
    } else {
        Step::Going { token: operation_of(c.character), next: i + 1 }
    }
}

/// How a character that the scan stops at changes the count of open
/// parentheses.
pub open spec fn depth_change(c: char) -> int {
    if c == '(' {
        1
    } else if c == ')' {
        -1
    } else {
        0
    }
}

/// The scan from position `i` on, with `depth` parentheses open and `tokens`
/// taken so far. Only the characters that the scan stops at count as
/// parentheses; at the end none may be open.
pub open spec fn scan(s: Seq<Classified>, i: int, depth: int, tokens: Seq<Tokens>) -> Result<
    Seq<Tokens>,
    LexicalError,
>
    decreases s.len() - i,
{
    if i < 0 || i >= s.len() {
        if depth != 0 {
            Err(LexicalError::ParenthesisAssign)
        } else {
            Ok(tokens)
        }
    } else {
        match step_at(s, i) {
            Step::Failed => Err(LexicalError::ProcedureSyntax),
            Step::Going { token, next } => {
                if next <= i {
                    Err(LexicalError::ProcedureSyntax)
                } else {
                    scan(
                        s,
                        if next < s.len() {
                            next
                        } else {
                            s.len() as int
                        },
                        depth + depth_change(s[i].character),
                        match token {
                            Some(t) => tokens.push(t),
                            None => tokens,
                        },
                    )
                }
            },
        }
    }
}

/// The tokens of classified characters: the scan from the first character,
/// with no parenthesis open and no token taken.
pub open spec fn scanned(s: Seq<Classified>) -> Result<Seq<Tokens>, LexicalError> {
    scan(s, 0, 0, Seq::empty())
}

/// The tokens of an expression: those of its characters with their classes.
pub open spec fn tokens_of(s: Seq<char>) -> Result<Seq<Tokens>, LexicalError> {
    scanned(classified(s))
}

/// The tokens of each expression in turn, or the error of the first
/// expression that has one.
pub open spec fn analysis_of(expressions: Seq<Seq<char>>) -> Result<
    Seq<Seq<Tokens>>,
    LexicalError,
>
    decreases expressions.len(),
{
    if expressions.len() == 0 {
        Ok(Seq::empty())
    } else {
        match analysis_of(expressions.drop_last()) {
            Err(error) => Err(error),
            Ok(front) => match tokens_of(expressions.last()) {
                Err(error) => Err(error),
                Ok(tokens) => Ok(front.push(tokens)),
            },
        }
    }
}

/// The expressions of the definitions, in their order.
pub open spec fn expressions_of(definitions: Seq<Definition>) -> Seq<Seq<char>> {
    Seq::new(definitions.len(), |i: int| definitions[i].expression@)
}

/// The expressions of the definitions, each with its spaces taken out.
pub open spec fn cleaned_expressions_of(definitions: Seq<Definition>) -> Seq<Seq<char>> {
    Seq::new(definitions.len(), |i: int| without_spaces(definitions[i].expression@))
}

/// Whether `result` is the analysis of `expressions`, under the names of
/// `definitions`.
pub open spec fn is_analysis(
    result: Result<Vec<Tokenized>, LexicalError>,
    definitions: Seq<Definition>,
    expressions: Seq<Seq<char>>,
) -> bool {
    match analysis_of(expressions) {
        Ok(all) => {
            &&& result matches Ok(list)
            &&& list@.len() == all.len()
            &&& forall|i: int|
                0 <= i < all.len() ==> (#[trigger] list@[i]).name@ == definitions[i].name@
                    && list@[i].tokens@ == all[i]
        },
        Err(error) => result matches Err(e) && e == error,
    }
}

/// Takes the spaces out of a text.
pub fn strip_spaces(text: &str) -> (stripped: String)
    ensures
        stripped@ == without_spaces(text@),
{
    let chars: Vec<char> = to_chars(text);
    let mut stripped: String = String::new();
    let mut i: usize = 0;
    while i < chars.len()
        invariant
            i <= chars@.len(),
            chars@ == text@,
            stripped@ == without_spaces(chars@.take(i as int)),
        decreases chars@.len() - i,
    {
        proof {
            assert(chars@.take(i + 1).drop_last() =~= chars@.take(i as int));
        }
        if chars[i] != ' ' {
            stripped.push(chars[i]);
        }
        i = i + 1;
    }
    proof {
        assert(chars@.take(i as int) =~= chars@);
    }
    stripped
}

/// Takes the spaces out of the expression of each definition.
pub fn clean(function_map: &Vec<Definition>) -> (cleaned: Vec<Definition>)
    ensures
        cleaned@.len() == function_map@.len(),
        forall|i: int|
            0 <= i < function_map@.len() ==> (#[trigger] cleaned@[i]).name@ == function_map@[i].name@
                && cleaned@[i].expression@ == without_spaces(function_map@[i].expression@),
{
    let mut cleaned: Vec<Definition> = Vec::new();
    let mut i: usize = 0;
    while i < function_map.len()
        invariant
            i <= function_map@.len(),
            cleaned@.len() == i,
            forall|j: int|
                0 <= j < i ==> (#[trigger] cleaned@[j]).name@ == function_map@[j].name@
                    && cleaned@[j].expression@ == without_spaces(function_map@[j].expression@),
        decreases function_map@.len() - i,
    {
        let name: String = function_map[i].name.clone();
        let expression: String = strip_spaces(function_map[i].expression.as_str());
        cleaned.push(Definition { name, expression });
        i = i + 1;
    }
    cleaned
}

/// The operation that a character stands for, if any.
pub fn match_operation(operation: char) -> (token: Option<Tokens>)
    ensures
        token == operation_of(operation),
{
    if operation == '(' {
        Some(Tokens::ParenthesisLeft)
    } else if operation == ')' {
        Some(Tokens::ParenthesisRight)
    } else if operation == '^' {
        Some(Tokens::Exponent)
    } else if operation == '*' {
        Some(Tokens::Mul)
    } else if operation == '/' {
        Some(Tokens::Div)
    } else if operation == '+' {
        Some(Tokens::Add)
    } else if operation == '-' {
        Some(Tokens::Sub)
    } else {
        None
    }
}

/// The priority of a token.
pub fn match_token_to_priority(operation: Tokens) -> (priority: u8)
    ensures
        priority == priority_of(operation),
{
    match operation {
        Tokens::ParenthesisLeft => 61,
        Tokens::ParenthesisRight => 60,
        Tokens::Function => 50,
        Tokens::Exponent => 40,
        Tokens::Mul => 31,
        Tokens::Div => 30,
        Tokens::Add => 20,
        Tokens::Sub => 10,
        Tokens::Procedure(_) => 3,
        Tokens::Variable(_) => 2,
        Tokens::Number(_) => 1,
    }
}

/// Whether the rank of `a` is below the rank of `b`.
pub fn token_is_less_than(a: Tokens, b: Tokens) -> (less: bool)
    ensures
        less == (priority_of(a) / 10 < priority_of(b) / 10),
{
    match_token_to_priority(a) / 10 < match_token_to_priority(b) / 10
}

/// Whether the rank of `a` is above the rank of `b`.
pub fn token_is_greater_than(a: Tokens, b: Tokens) -> (greater: bool)
    ensures
        greater == (priority_of(a) / 10 > priority_of(b) / 10),
{
    match_token_to_priority(a) / 10 > match_token_to_priority(b) / 10
}

/// The terms of analysed functions. None are retrieved yet: the list is
/// empty.
pub fn get_terms(tokenized_map: Vec<Tokenized>) -> (terms: Vec<String>)
    ensures
        terms@.len() == 0,
{
    Vec::new()
}

/// Finds where the run of number characters that starts at `from` ends.
fn skip_number(s: &Vec<Classified>, from: usize) -> (end: usize)
    requires
        from <= s@.len(),
    ensures
        end == number_end(s@, from as int),
        from <= end <= s@.len(),
{
    let mut i: usize = from;
    while i < s.len() && (s[i].numeric || s[i].character == '.')
        invariant
            from <= i <= s@.len(),
            number_end(s@, from as int) == number_end(s@, i as int),
        decreases s@.len() - i,
    {
        i = i + 1;
    }
    i
}

/// Finds where the run of alphabetic characters that starts at `from` ends.
fn skip_name(s: &Vec<Classified>, from: usize) -> (end: usize)
    requires
        from <= s@.len(),
    ensures
        end == name_end(s@, from as int),
        from <= end <= s@.len(),
{
    let mut i: usize = from;
    while i < s.len() && s[i].alphabetic
        invariant
            from <= i <= s@.len(),
            name_end(s@, from as int) == name_end(s@, i as int),
        decreases s@.len() - i,
    {
        i = i + 1;
    }
    i
}

/// Divides characters that come with their classes into tokens.
pub fn scan_classified(s: &Vec<Classified>) -> (result: Result<Vec<Tokens>, LexicalError>)
    requires
        s@.len() < 0x7fff_ffff,
    ensures
        match scanned(s@) {
            Ok(tokens) => result matches Ok(list) && list@ == tokens,
            Err(error) => result matches Err(e) && e == error,
        },
{
    let len: usize = s.len();
    let mut tokens: Vec<Tokens> = Vec::new();
    let mut depth: i64 = 0;
    let mut i: usize = 0;
    while i < len
        invariant
            len == s@.len(),
            len < 0x7fff_ffff,
            i <= len,
            -(i as int) <= depth <= i,
            scanned(s@) == scan(s@, i as int, depth as int, tokens@),
        decreases len - i,
    {
        let c: Classified = s[i];
        let change: i64 = if c.character == '(' {
            1
        } else if c.character == ')' {
            -1
        } else {
            0
        };
        let next: usize;
        if c.numeric {
            let end: usize = skip_number(s, i);
            let count: usize = if end < len {
                end - i + 1
            } else {
                end - i
            };
            tokens.push(Tokens::Number(count as i32));
            next = i + count + 1;
        } else if c.alphabetic {
            let start: usize = if i >= 1 {
                i - 1
            } else {
                0
            };
            let end: usize = skip_name(s, start);
            if end >= len {
                next = len;
            } else if match_operation(s[end].character).is_some() {
                tokens.push(Tokens::Variable((end - start) as i32));
                next = i + (end - start) + 2;
            } else {
                return Err(LexicalError::ProcedureSyntax);
            }
        } else {
            match match_operation(c.character) {
                Some(token) => {
                    tokens.push(token);
                },
                None => {},
            }
            next = i + 1;
        }
        depth = depth + change;
        i = if next < len {
            next
        } else {
            len
        };
    }
    if depth != 0 {
        Err(LexicalError::ParenthesisAssign)
    } else {
        Ok(tokens)
    }
}

/// The characters of a text, each with the classes that Unicode gives it.
pub fn classify_text(text: &str) -> (characters: Vec<Classified>)
    ensures
        characters@ == classified(text@),
{
    let chars: Vec<char> = to_chars(text);
    let mut characters: Vec<Classified> = Vec::new();
    let mut i: usize = 0;
    while i < chars.len()
        invariant
            i <= chars@.len(),
            chars@ == text@,
            characters@.len() == i,
            forall|j: int| 0 <= j < i ==> characters@[j] == classify(chars@[j]),
        decreases chars@.len() - i,
    {
        let c: char = chars[i];
        let alphabetic: bool = c.is_alphabetic();
        let numeric: bool = c.is_numeric();
        let ghost before: Seq<Classified> = characters@;
        let item: Classified = Classified { character: c, alphabetic, numeric };
        characters.push(item);
        assert(characters@ == before.push(item));
        assert(item == classify(c));
        i = i + 1;
    }
    assert(characters@ =~= classified(text@));
    characters
}

/// Divides one expression into tokens.
pub fn tokenize(expression: &str) -> (result: Result<Vec<Tokens>, LexicalError>)
    requires
        expression@.len() < 0x7fff_ffff,
    ensures
        match tokens_of(expression@) {
            Ok(tokens) => result matches Ok(list) && list@ == tokens,
            Err(error) => result matches Err(e) && e == error,
        },
{
    let characters: Vec<Classified> = classify_text(expression);
    scan_classified(&characters)
}

/// Divides the expression of each definition into tokens, in the order of the
/// definitions, and stops at the first one that cannot be divided.
pub fn analyze(function_map: &Vec<Definition>) -> (result: Result<Vec<Tokenized>, LexicalError>)
    requires
        forall|i: int|
            0 <= i < function_map@.len() ==> (#[trigger] function_map@[i]).expression@.len()
                < 0x7fff_ffff,
    ensures
        is_analysis(result, function_map@, expressions_of(function_map@)),
        result matches Ok(list) ==> list@.len() == function_map@.len(),
{
    let mut tokenized_map: Vec<Tokenized> = Vec::new();
    let mut i: usize = 0;
    let ghost expressions: Seq<Seq<char>> = expressions_of(function_map@);
    proof {
        assert(expressions.take(0) =~= Seq::<Seq<char>>::empty());
    }
    while i < function_map.len()
        invariant
            i <= function_map@.len(),
            expressions == expressions_of(function_map@),
            forall|j: int|
                0 <= j < function_map@.len() ==> (#[trigger] function_map@[j]).expression@.len()
                    < 0x7fff_ffff,
            is_analysis(Ok(tokenized_map), function_map@, expressions.take(i as int)),
            analysis_of(expressions.take(i as int)) matches Ok(all) && all.len() == i,
            tokenized_map@.len() == i,
        decreases function_map@.len() - i,
    {
        proof {
            assert(expressions.take(i + 1).drop_last() =~= expressions.take(i as int));
            assert(expressions.take(i + 1).last() == function_map@[i as int].expression@);
        }
        match tokenize(function_map[i].expression.as_str()) {
            Ok(tokens) => {
                let name: String = function_map[i].name.clone();
                let ghost before: Seq<Tokenized> = tokenized_map@;
                let ghost front: Seq<Seq<Tokens>> = analysis_of(expressions.take(i as int))->Ok_0;
                tokenized_map.push(Tokenized { name, tokens });
                proof {
                    assert(analysis_of(expressions.take(i + 1)) == Ok::<
                        Seq<Seq<Tokens>>,
                        LexicalError,
                    >(front.push(tokens@)));
                    assert forall|j: int| 0 <= j < i + 1 implies (#[trigger] tokenized_map@[j]).name@
                        == function_map@[j].name@ && tokenized_map@[j].tokens@ == front.push(
                        tokens@,
                    )[j] by {
                        if j < i {
                            assert(tokenized_map@[j] == before[j]);
                        }
                    }
                }
            },
            Err(error) => {
                proof {
                    lemma_error_stays(expressions, i + 1);
                }
                return Err(error);
            },
        }
        i = i + 1;
    }
    proof {
        assert(expressions.take(i as int) =~= expressions);
    }
    Ok(tokenized_map)
}

/// An analysis without error has the tokens of every expression.
pub proof fn lemma_analysis_len(expressions: Seq<Seq<char>>)
    ensures
        analysis_of(expressions) matches Ok(all) ==> all.len() == expressions.len(),
    decreases expressions.len(),
{
    if expressions.len() > 0 {
        lemma_analysis_len(expressions.drop_last());
    }
}

/// An error among the first expressions is the error of all of them.
proof fn lemma_error_stays(expressions: Seq<Seq<char>>, count: int)
    requires
        0 <= count <= expressions.len(),
        analysis_of(expressions.take(count)) is Err,
    ensures
        analysis_of(expressions) == analysis_of(expressions.take(count)),
    decreases expressions.len() - count,
{
    if count < expressions.len() {
        assert(expressions.take(count + 1).drop_last() =~= expressions.take(count));
        lemma_error_stays(expressions, count + 1);
    } else {
        assert(expressions.take(count) =~= expressions);
    }
}

} // verus!
