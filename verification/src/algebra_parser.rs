//! The first steps towards reading algebraic expressions: named function
//! definitions, their cleaning, and their division into tokens.

use crate::algebra_parser::lexical_analyzer::{
    analyze, clean, cleaned_expressions_of, expressions_of, is_analysis,
    lemma_analysis_len, lemma_without_spaces_shorter,
    LexicalError, Tokenized,
};
use vstd::prelude::*;

pub mod lexical_analyzer;

verus! {

/// A function under its name, as the text of its expression.
pub struct Definition {
    pub name: String,
    pub expression: String,
}

/// Cleans the definitions and divides each into tokens. No tree is grown from
/// the tokens yet: what comes back is the analysis of the cleaned
/// expressions.
pub fn generate_all_ast(data: &Vec<Definition>) -> (analysis: Result<Vec<Tokenized>, LexicalError>)
    requires
        forall|i: int|
            0 <= i < data@.len() ==> (#[trigger] data@[i]).expression@.len() < 0x7fff_ffff,
    ensures
        is_analysis(analysis, data@, cleaned_expressions_of(data@)),
        analysis matches Ok(list) ==> list@.len() == data@.len(),
{
    let function_map: Vec<Definition> = clean(data);
    proof {
        assert forall|i: int| 0 <= i < function_map@.len() implies (
        #[trigger] function_map@[i]).expression@.len() < 0x7fff_ffff by {
            lemma_without_spaces_shorter(data@[i].expression@);
        }
        assert(expressions_of(function_map@) =~= cleaned_expressions_of(data@));
    }
    let analysis = analyze(&function_map);
    proof {
        lemma_analysis_len(cleaned_expressions_of(data@));
    }
    analysis
}

} // verus!
