//! Fortunes: a quote with the name of the file it came from, and the random
//! pick of one quote out of a collection.

use crate::text;
use rand::Rng;
use rand::SeedableRng;
use vstd::prelude::*;

verus! {

/// One fortune: the name of its source file and its text.
#[derive(Debug)]
pub struct Fortune {
    pub file: String,
    pub text: String,
}

impl Fortune {
    /// Builds a fortune from a source file name — `Unknown` when the source
    /// has none — and the lines of its text, joined with newlines.
    pub fn new(file_name: Option<String>, lines: &Vec<String>) -> (r: Fortune)
        ensures
            r.file@ == match file_name {
                Some(n) => n@,
                None => "Unknown"@,
            },
            r.text@ == text::join_with(lines@.map_values(|l: String| l@), '\n'),
    {
        let file = match file_name {
            Some(n) => n,
            None => "Unknown".to_owned(),
        };
        let joined = text::join_strings(lines, '\n');
        Fortune { file, text: text::chars_to_string(&joined) }
    }
}

#[verifier::external_type_specification]
#[verifier::external_body]
pub struct ExStdRng(rand::rngs::StdRng);

/// Relies on `rand::SeedableRng`: `seed_from_u64` builds a generator from
/// the seed, `from_entropy` one from operating-system randomness. Nothing is
/// promised of the state either way.
#[verifier::external_body]
fn make_rng(seed: Option<u64>) -> rand::rngs::StdRng {
    match seed {
        None => rand::rngs::StdRng::from_entropy(),
        Some(s) => rand::rngs::StdRng::seed_from_u64(s),
    }
}

/// Relies on `rand::Rng::gen`: some machine-word value; nothing is promised
/// of it, so callers must cope with every outcome.
#[verifier::external_body]
fn next_random(rng: &mut rand::rngs::StdRng) -> usize {
    rng.gen()
}

/// Picks one fortune's text: none from an empty collection, and otherwise
/// the text of some fortune in it, chosen by the generator the seed yields.
pub fn pick_fortune(fortunes: &Vec<Fortune>, seed: Option<u64>) -> (r: Option<String>)
    ensures
        r is Some <==> fortunes@.len() > 0,
        r is Some ==> exists|i: int|
            0 <= i < fortunes@.len() && r->0@ == #[trigger] fortunes@[i].text@,
{
    if fortunes.len() == 0 {
        return None;
    }
    let mut rng = make_rng(seed);
    let number = next_random(&mut rng);
    let index = number % fortunes.len();
    let picked = fortunes[index].text.clone();
    proof {
        assert(picked@ == fortunes@[index as int].text@);
    }
    Some(picked)
}

} // verus!
