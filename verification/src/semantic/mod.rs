//! Lightweight enrichment over ingested text: entity and summary
//! extraction, run as an optional side effect of ingestion and never
//! required for the retrieval contract.

pub mod pipeline;

use vstd::prelude::*;
use crate::types::SCALE;

verus! {

/// What `char::is_whitespace` decides; a function of the character alone.
pub uninterp spec fn is_space_char(c: char) -> bool;

/// What `char::is_uppercase` decides; a function of the character alone.
pub uninterp spec fn is_upper_char(c: char) -> bool;

/// What `str::to_lowercase` returns; a function of the characters alone.
pub uninterp spec fn lower_of(s: Seq<char>) -> Seq<char>;

/// Relies on std's char::is_whitespace: a pure character classification.
#[verifier::external_body]
pub(crate) fn char_is_whitespace(c: char) -> (r: bool)
    ensures
        r == is_space_char(c),
{
    c.is_whitespace()
}

/// Relies on std's char::is_uppercase: a pure character classification.
#[verifier::external_body]
fn char_is_uppercase(c: char) -> (r: bool)
    ensures
        r == is_upper_char(c),
{
    c.is_uppercase()
}

/// Relies on std's str::to_lowercase: the result depends on the
/// characters alone, and an empty string stays empty.
#[verifier::external_body]
fn lowercase(s: &String) -> (r: String)
    ensures
        r@ == lower_of(s@),
        s@.len() == 0 ==> r@.len() == 0,
{
    s.to_lowercase()
}

/// Relies on std's str::chars: the characters of the string, in order.
#[verifier::external_body]
pub(crate) fn chars_of(s: &str) -> (r: Vec<char>)
    ensures
        r@ == s@,
{
    s.chars().collect()
}

/// Relies on std's FromIterator for String: builds the string of exactly
/// these characters.
#[verifier::external_body]
pub(crate) fn string_from_chars(v: &Vec<char>) -> (r: String)
    ensures
        r@ == v@,
{
    v.iter().collect()
}

/// A surface form linked to an entity, with a fixed-point confidence.
pub struct EntityLink {
    pub surface: String,
    pub entity_id: String,
    pub score: i64,
}

/// A named measure extracted from text, in fixed point.
pub struct Kpi {
    pub name: String,
    pub value: i64,
}

/// A short summary of the ingested text.
pub struct Summary {
    pub text: String,
}

/// The output of one enrichment pass.
pub struct OlspOutput {
    pub entities: Vec<EntityLink>,
    pub kpis: Vec<Kpi>,
    pub summary: Option<Summary>,
    pub drift_flag: bool,
}

impl OlspOutput {
    /// No findings.
    pub fn empty() -> (r: Self)
        ensures
            r.entities@.len() == 0,
            r.kpis@.len() == 0,
            r.summary is None,
            !r.drift_flag,
    {
        OlspOutput { entities: Vec::new(), kpis: Vec::new(), summary: None, drift_flag: false }
    }
}

impl Default for OlspOutput {
    /// No findings.
    fn default() -> (r: Self)
        ensures
            r.entities@.len() == 0,
            r.kpis@.len() == 0,
            r.summary is None,
            !r.drift_flag,
    {
        OlspOutput::empty()
    }
}

/// The optional enrichment capability invoked after an insert.
pub trait Olsp {
    fn process(&self, text: &str) -> (r: OlspOutput);
}

/// Enrichment that finds nothing.
pub struct NoopOlsp;

impl Olsp for NoopOlsp {
    fn process(&self, _text: &str) -> (r: OlspOutput) {
        OlspOutput::empty()
    }
}

/// Heuristic enrichment: each whitespace-delimited token beginning with
/// an uppercase character becomes an entity whose id is the token's
/// lowercase form at half confidence, and the summary is the first 120
/// characters of the text.
pub struct HeuristicOlsp;

impl HeuristicOlsp {
    /// Run the heuristics; stated of every entity: its surface is a
    /// non-empty uppercase-initial token, its id that token lowercased,
    /// its score one half. The summary is exactly the first 120
    /// characters. No measures and no drift are ever reported.
    pub fn run(&self, text: &str) -> (r: OlspOutput)
        ensures
            r.kpis@.len() == 0,
            !r.drift_flag,
            match r.summary {
                Some(s) => s.text@ == text@.take(if text@.len() < 120 {
                    text@.len() as int
                } else {
                    120
                }),
                None => false,
            },
            forall|i: int|
                0 <= i < r.entities@.len() ==> {
                    let e = #[trigger] r.entities@[i];
                    &&& e.surface@.len() > 0
                    &&& is_upper_char(e.surface@[0])
                    &&& e.entity_id@ == lower_of(e.surface@)
                    &&& e.score == SCALE / 2
                },
    {
        let chars = chars_of(text);
        let n = chars.len();
        let mut entities: Vec<EntityLink> = Vec::new();
        let mut i: usize = 0;
        while i < n
            invariant
                i <= n,
                n == chars@.len(),
                forall|t: int|
                    0 <= t < entities@.len() ==> {
                        let e = #[trigger] entities@[t];
                        &&& e.surface@.len() > 0
                        &&& is_upper_char(e.surface@[0])
                        &&& e.entity_id@ == lower_of(e.surface@)
                        &&& e.score == SCALE / 2
                    },
            decreases n - i,
        {
            if char_is_whitespace(chars[i]) {
                i = i + 1;
            } else {
                let start = i;
                let mut j = i;
                while j < n && !char_is_whitespace(chars[j])
                    invariant
                        start <= j <= n,
                        n == chars@.len(),
                    decreases n - j,
                {
                    j = j + 1;
                }
                let mut token_chars: Vec<char> = Vec::new();
                let mut t = start;
                while t < j
                    invariant
                        start <= t <= j <= n,
                        n == chars@.len(),
                        token_chars@ == chars@.subrange(start as int, t as int),
                    decreases j - t,
                {
                    token_chars.push(chars[t]);
                    t = t + 1;
                    proof {
                        assert(token_chars@ =~= chars@.subrange(start as int, t as int));
                    }
                }
                if char_is_uppercase(token_chars[0]) {
                    let surface = string_from_chars(&token_chars);
                    let entity_id = lowercase(&surface);
                    entities.push(EntityLink { surface, entity_id, score: SCALE / 2 });
                }
                i = j;
            }
        }
        let mut summary_chars: Vec<char> = Vec::new();
        let lim = if n < 120 {
            n
        } else {
            120
        };
        let mut t: usize = 0;
        while t < lim
            invariant
                t <= lim <= n,
                n == chars@.len(),
                summary_chars@ == chars@.subrange(0, t as int),
            decreases lim - t,
        {
            summary_chars.push(chars[t]);
            t = t + 1;
            proof {
                assert(summary_chars@ =~= chars@.subrange(0, t as int));
            }
        }
        let summary = Summary { text: string_from_chars(&summary_chars) };
        OlspOutput {
            entities,
            kpis: Vec::new(),
            summary: Some(summary),
            drift_flag: false,
        }
    }
}

impl Olsp for HeuristicOlsp {
    fn process(&self, text: &str) -> (r: OlspOutput) {
        self.run(text)
    }
}

} // verus!
