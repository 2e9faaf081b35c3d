//! Regular expressions given by the user (match patterns, morph rules,
//! command filters), compiled and run by the `regex` crate.
use vstd::prelude::*;
use vstd::string::StringExecFns;

verus! {

#[verifier::external_type_specification]
#[verifier::external_body]
pub struct ExRegex(regex::Regex);


/// Whether `regex::Regex::new` accepts the pattern.
pub uninterp spec fn regex_compiles(pattern: Seq<char>) -> bool;

/// What `regex::Regex::is_match` returns for the regex compiled from
/// `pattern` on `text`.
pub uninterp spec fn regex_is_match(pattern: Seq<char>, text: Seq<char>) -> bool;

/// What `regex::Regex::replace_all` returns for the regex compiled from
/// `pattern` on `text` with the replacement template `rep` (`$1`, `$name`
/// expand to capture groups).
pub uninterp spec fn regex_replace_all(pattern: Seq<char>, text: Seq<char>, rep: Seq<char>) -> Seq<
    char,
>;

/// The message (`Display`) of the error that `regex::Regex::new` gives for a
/// pattern it refuses.
pub uninterp spec fn regex_error_text(pattern: Seq<char>) -> Seq<char>;

/// `regex::Regex::new`: it succeeds exactly on the patterns it accepts (named
/// `regex_compiles`); on the others, the message of its error (named
/// `regex_error_text`).
#[verifier::external_body]
fn regex_new(pattern: &str) -> (r: Result<regex::Regex, String>)
    ensures
        r is Ok <==> regex_compiles(pattern@),
        r matches Err(m) ==> m@ == regex_error_text(pattern@),
{
    regex::Regex::new(pattern).map_err(|e| e.to_string())
}

/// A compiled regular expression together with the pattern it was compiled
/// from; only `Pattern::compile` makes one.
pub struct Pattern {
    source: String,
    re: regex::Regex,
}

impl View for Pattern {
    type V = Seq<char>;

    /// The pattern text.
    closed spec fn view(&self) -> Seq<char> {
        self.source@
    }
}

impl Pattern {
    /// Compiles `pattern`; on failure, the regex crate's error message.
    pub fn compile(pattern: &str) -> (r: Result<Pattern, String>)
        ensures
            r is Ok <==> regex_compiles(pattern@),
            r matches Ok(p) ==> p@ == pattern@,
            r matches Err(m) ==> m@ == regex_error_text(pattern@),
    {
        match regex_new(pattern) {
            Ok(re) => Ok(Pattern { source: String::from_str(pattern), re }),
            Err(m) => Err(m),
        }
    }

    /// `regex::Regex::is_match` of the regex compiled from the pattern text,
    /// on `text`.
    #[verifier::external_body]
    fn regex_is_match_call(&self, text: &str) -> (r: bool)
        ensures
            r == regex_is_match(self@, text@),
    {
        self.re.is_match(text)
    }

    /// `regex::Regex::replace_all` of the regex compiled from the pattern
    /// text, on `text` with the template `rep`.
    #[verifier::external_body]
    fn regex_replace_all_call(&self, text: &str, rep: &str) -> (r: String)
        ensures
            r@ == regex_replace_all(self@, text@, rep@),
    {
        self.re.replace_all(text, rep).into_owned()
    }

    /// Whether the pattern matches somewhere in `text`.
    pub fn is_match(&self, text: &str) -> (r: bool)
        ensures
            r == regex_is_match(self@, text@),
    {
        self.regex_is_match_call(text)
    }

    /// `text` with every match of the pattern replaced by the template `rep`
    /// (`$1`, `$name` expand to capture groups).
    pub fn replace_all(&self, text: &str, rep: &str) -> (r: String)
        ensures
            r@ == regex_replace_all(self@, text@, rep@),
    {
        self.regex_replace_all_call(text, rep)
    }

    /// The pattern text.
    pub fn as_str(&self) -> (r: &str)
        ensures
            r@ == self@,
    {
        self.source.as_str()
    }
}

/// Whether `pattern` compiles and matches `text`; an empty (or all-blank)
/// pattern is no filter and matches everything, an invalid one matches
/// nothing.
pub open spec fn pattern_filter_matches(pattern: Seq<char>, text: Seq<char>) -> bool {
    crate::text::trim(pattern).len() == 0 || (regex_compiles(pattern) && regex_is_match(
        pattern,
        text,
    ))
}

/// Compiles each pattern and keeps those that compile, in order.
pub open spec fn compiled_patterns(patterns: Seq<Seq<char>>) -> Seq<Seq<char>>
    decreases patterns.len(),
{
    if patterns.len() == 0 {
        seq![]
    } else if regex_compiles(patterns[0]) {
        seq![patterns[0]] + compiled_patterns(patterns.drop_first())
    } else {
        compiled_patterns(patterns.drop_first())
    }
}

/// Compiles the clipboard match patterns, skipping the invalid ones.
pub fn compile_patterns(regex_list: &Vec<String>) -> (r: Vec<Pattern>)
    ensures
        r@.map_values(|p: Pattern| p@) == compiled_patterns(regex_list@.map_values(|s: String| s@)),
{
    let ghost pv = regex_list@.map_values(|s: String| s@);
    let mut out: Vec<Pattern> = Vec::new();
    let mut i: usize = 0;
    assert(pv.skip(0) =~= pv);
    assert(out@.map_values(|p: Pattern| p@) =~= Seq::<Seq<char>>::empty());
    while i < regex_list.len()
        invariant
            i <= regex_list.len(),
            pv == regex_list@.map_values(|s: String| s@),
            compiled_patterns(pv) == out@.map_values(|p: Pattern| p@) + compiled_patterns(
                pv.skip(i as int),
            ),
        decreases regex_list.len() - i,
    {
        assert(pv.skip(i as int)[0] == regex_list@[i as int]@);
        assert(pv.skip(i as int).drop_first() =~= pv.skip(i + 1));
        let ghost before = out@.map_values(|p: Pattern| p@);
        match Pattern::compile(regex_list[i].as_str()) {
            Ok(p) => {
                let ghost pvw = p@;
                out.push(p);
                assert(out@.map_values(|p: Pattern| p@) =~= before.push(pvw));
                assert(before + (seq![pvw] + compiled_patterns(pv.skip(i + 1))) =~= before.push(
                    pvw,
                ) + compiled_patterns(pv.skip(i + 1)));
            },
            Err(_) => {},
        }
        i += 1;
    }
    assert(pv.skip(i as int) =~= Seq::<Seq<char>>::empty());
    assert(out@.map_values(|p: Pattern| p@) + Seq::<Seq<char>>::empty() =~= out@.map_values(
        |p: Pattern| p@,
    ));
    out
}

/// Whether any of the compiled patterns matches `text`: what decides that a
/// clipboard change brings up the target picker.
pub fn any_pattern_matches(patterns: &Vec<Pattern>, text: &str) -> (r: bool)
    ensures
        r == exists|k: int| 0 <= k < patterns@.len() && regex_is_match(#[trigger] patterns@[k]@, text@),
{
    let mut i: usize = 0;
    while i < patterns.len()
        invariant
            i <= patterns.len(),
            forall|k: int| 0 <= k < i ==> !regex_is_match(#[trigger] patterns@[k]@, text@),
        decreases patterns.len() - i,
    {
        if patterns[i].is_match(text) {
            return true;
        }
        i += 1;
    }
    false
}

} // verus!
