//! Subscription patterns: comma-separated alternatives of `/`-separated parts,
//! where `*` stands for one or more of any character, `+` for one or more
//! characters other than `/`, and any other part for itself. The reserved
//! object matches only a pattern with a `$system` part.
use crate::text::{chars_eq, chars_of, push_all, string_from_chars, system_name, system_name_chars};
use vstd::prelude::*;

verus! {

/// `regex::Regex`, a compiled regular expression.
#[verifier::external_type_specification]
#[verifier::external_body]
pub struct ExRegex(regex::Regex);

/// The text a compiled regular expression was built from.
pub uninterp spec fn regex_source(r: regex::Regex) -> Seq<char>;

/// The characters that have a meaning of their own in a regular expression.
pub open spec fn is_regex_meta(c: char) -> bool {
    c == '\\' || c == '.' || c == '+' || c == '*' || c == '?' || c == '(' || c == ')' || c == '|' || c == '['
        || c == ']' || c == '{' || c == '}' || c == '^' || c == '$' || c == '#' || c == '&' || c == '-' || c == '~'
}

/// The text that matches `s` literally: a backslash before each
/// metacharacter, every other character as it is.
pub open spec fn regex_escape_of(s: Seq<char>) -> Seq<char>
    decreases s.len(),
{
    if s.len() == 0 {
        s
    } else if is_regex_meta(s.last()) {
        regex_escape_of(s.drop_last()) + seq!['\\', s.last()]
    } else {
        regex_escape_of(s.drop_last()).push(s.last())
    }
}

/// Whether the regular expression with text `source` finds a match in `hay`.
pub uninterp spec fn regex_finds(source: Seq<char>, hay: Seq<char>) -> bool;

/// Whether `source` is a regular expression that the regex crate accepts.
pub uninterp spec fn regex_compiles(source: Seq<char>) -> bool;

/// Relies on `regex::escape`, which writes a backslash before each of the
/// eighteen metacharacters and copies every other character.
#[verifier::external_body]
fn regex_escape(s: &str) -> (r: String)
    ensures
        r@ == regex_escape_of(s@),
{
    regex::escape(s)
}

/// Relies on `regex::Regex::new`: it succeeds on the texts it accepts, and the
/// regex keeps the text it was built from.
#[verifier::external_body]
fn regex_new(source: &str) -> (r: Option<regex::Regex>)
    ensures
        r is Some <==> regex_compiles(source@),
        r matches Some(re) ==> regex_source(re) == source@,
{
    regex::Regex::new(source).ok()
}

/// Relies on `regex::Regex::is_match`.
#[verifier::external_body]
fn regex_is_match(re: &regex::Regex, hay: &str) -> (r: bool)
    ensures
        r == regex_finds(regex_source(*re), hay@),
{
    re.is_match(hay)
}

/// Relies on `regex::Regex::as_str`: the text the regex was built from.
#[verifier::external_body]
fn regex_as_str(re: &regex::Regex) -> (r: &str)
    ensures
        r@ == regex_source(*re),
{
    re.as_str()
}

/// Relies on `<regex::Regex as Clone>::clone`: the copy has the same text.
#[verifier::external_body]
fn regex_clone(re: &regex::Regex) -> (r: regex::Regex)
    ensures
        regex_source(r) == regex_source(*re),
{
    re.clone()
}

/// The pieces of `s` between occurrences of `sep`; always at least one.
pub open spec fn split_on(s: Seq<char>, sep: char) -> Seq<Seq<char>>
    decreases s.len(),
{
    if s.len() == 0 {
        seq![Seq::<char>::empty()]
    } else {
        let prev = split_on(s.drop_last(), sep);
        if s.last() == sep {
            prev.push(Seq::<char>::empty())
        } else {
            prev.update(prev.len() - 1, prev.last().push(s.last()))
        }
    }
}

/// The pieces joined, with `sep` between neighbours.
pub open spec fn join(sep: Seq<char>, items: Seq<Seq<char>>) -> Seq<char>
    decreases items.len(),
{
    if items.len() == 0 {
        Seq::<char>::empty()
    } else if items.len() == 1 {
        items[0]
    } else {
        join(sep, items.drop_last()) + sep + items.last()
    }
}

/// The regex text for one part.
pub open spec fn part_regex(part: Seq<char>) -> Seq<char> {
    if part == seq!['*'] {
        seq!['.', '+']
    } else if part == seq!['+'] {
        seq!['[', '^', '/', ']', '+']
    } else {
        regex_escape_of(part)
    }
}

/// The regex text for one alternative: its parts joined by `/`, anchored at
/// both ends and grouped.
pub open spec fn alternative_regex(alt: Seq<char>) -> Seq<char> {
    seq!['(', '^'] + join(seq!['/'], split_on(alt, '/').map_values(|p: Seq<char>| part_regex(p)))
        + seq!['$', ')']
}

/// The regex text for a whole pattern: its alternatives joined by `|`.
pub open spec fn pattern_regex(s: Seq<char>) -> Seq<char> {
    join(seq!['|'], split_on(s, ',').map_values(|a: Seq<char>| alternative_regex(a)))
}

/// Whether one of the first `n` parts of the alternative `alt` is exactly `part`.
pub open spec fn alt_has_upto(alt: Seq<char>, part: Seq<char>, n: int) -> bool {
    exists|b: int| 0 <= b < n && #[trigger] split_on(alt, '/')[b] == part
}

/// Whether some part of the alternative `alt` is exactly `part`.
pub open spec fn alt_has(alt: Seq<char>, part: Seq<char>) -> bool {
    alt_has_upto(alt, part, split_on(alt, '/').len() as int)
}

/// Whether one of the first `n` alternatives of `s` has a part that is exactly `part`.
pub open spec fn some_alt_has(s: Seq<char>, part: Seq<char>, n: int) -> bool {
    exists|a: int| 0 <= a < n && #[trigger] alt_has(split_on(s, ',')[a], part)
}

/// Whether some part of some alternative of `s` is exactly `part`.
pub open spec fn has_part(s: Seq<char>, part: Seq<char>) -> bool {
    some_alt_has(s, part, split_on(s, ',').len() as int)
}

pub struct Pattern {
    regex: regex::Regex,
    pub string: String,
    multiple: bool,
    includes_system: bool,
}

impl Pattern {
    /// The text of the compiled regex.
    pub closed spec fn source(&self) -> Seq<char> {
        regex_source(self.regex)
    }

    /// The pattern as it was written.
    pub closed spec fn text(&self) -> Seq<char> {
        self.string@
    }

    pub closed spec fn spec_multiple(&self) -> bool {
        self.multiple
    }

    pub closed spec fn spec_includes_system(&self) -> bool {
        self.includes_system
    }

    /// Whether the pattern matches the name `name`.
    pub open spec fn accepts(&self, name: Seq<char>) -> bool {
        if name == system_name() {
            self.spec_includes_system()
        } else {
            regex_finds(self.source(), name)
        }
    }

    pub fn compile(string: &str) -> (r: Result<Pattern, String>)
        ensures
            r is Ok <==> regex_compiles(pattern_regex(string@)),
            r matches Ok(p) ==> {
                &&& p.text() == string@
                &&& p.source() == pattern_regex(string@)
                &&& p.spec_includes_system() == has_part(string@, system_name())
                &&& p.spec_multiple() == (has_part(string@, seq!['*']) || has_part(string@, seq!['+']))
            },
    {
        let cs = chars_of(string);
        let alts = split_chars(&cs, ',');
        let sys = system_name_chars();
        let mut multiple = false;
        let mut includes_system = false;
        let mut text: Vec<char> = Vec::new();
        let mut i: usize = 0;
        while i < alts.len()
            invariant
                i <= alts@.len(),
                alts@.len() == split_on(cs@, ',').len(),
                forall|k: int| 0 <= k < alts@.len() ==> #[trigger] alts@[k]@ == split_on(cs@, ',')[k],
                sys@ == system_name(),
                text@ == join(seq!['|'], split_on(cs@, ',').take(i as int).map_values(|a: Seq<char>| alternative_regex(a))),
                includes_system == some_alt_has(cs@, system_name(), i as int),
                multiple == (some_alt_has(cs@, seq!['*'], i as int) || some_alt_has(cs@, seq!['+'], i as int)),
            decreases alts@.len() - i,
        {
            let parts = split_chars(&alts[i], '/');
            let mut alt_text: Vec<char> = Vec::new();
            let mut j: usize = 0;
            let ghost alt = split_on(cs@, ',')[i as int];
            while j < parts.len()
                invariant
                    i < alts@.len(),
                    j <= parts@.len(),
                    alts@[i as int]@ == alt,
                    parts@.len() == split_on(alt, '/').len(),
                    forall|k: int| 0 <= k < parts@.len() ==> #[trigger] parts@[k]@ == split_on(alt, '/')[k],
                    sys@ == system_name(),
                    alt_text@ == join(seq!['/'], split_on(alt, '/').take(j as int).map_values(|p: Seq<char>| part_regex(p))),
                    includes_system == (some_alt_has(cs@, system_name(), i as int)
                        || alt_has_upto(alt, system_name(), j as int)),
                    multiple == (some_alt_has(cs@, seq!['*'], i as int) || some_alt_has(cs@, seq!['+'], i as int)
                        || alt_has_upto(alt, seq!['*'], j as int) || alt_has_upto(alt, seq!['+'], j as int)),
                decreases parts@.len() - j,
            {
                let part = &parts[j];
                let piece: Vec<char>;
                if part.len() == 1 && part[0] == '*' {
                    assert(part@ =~= seq!['*']);
                    multiple = true;
                    piece = vec!['.', '+'];
                    assert(piece@ =~= part_regex(part@));
                } else if part.len() == 1 && part[0] == '+' {
                    assert(part@ =~= seq!['+']);
                    multiple = true;
                    piece = vec!['[', '^', '/', ']', '+'];
                    assert(piece@ =~= part_regex(part@));
                } else {
                    if chars_eq(part, &sys) {
                        includes_system = true;
                    }
                    let escaped = regex_escape(string_from_chars(part).as_str());
                    piece = chars_of(escaped.as_str());
                    proof {
                        if part@ == seq!['*'] {
                            assert(part@.len() == 1 && part@[0] == '*');
                        }
                        if part@ == seq!['+'] {
                            assert(part@.len() == 1 && part@[0] == '+');
                        }
                    }
                }
                if j > 0 {
                    alt_text.push('/');
                }
                push_all(&mut alt_text, &piece);
                proof {
                    let ps = split_on(alt, '/').map_values(|p: Seq<char>| part_regex(p));
                    assert(split_on(alt, '/').take(j + 1).map_values(|p: Seq<char>| part_regex(p))
                        =~= ps.take(j + 1));
                    assert(split_on(alt, '/').take(j as int).map_values(|p: Seq<char>| part_regex(p))
                        =~= ps.take(j as int));
                    assert(ps.take(j + 1).drop_last() =~= ps.take(j as int));
                    assert(alt_text@ =~= join(seq!['/'], ps.take(j + 1)));
                }
                j = j + 1;
            }
            proof {
                assert(split_on(alt, '/').take(j as int) =~= split_on(alt, '/'));
                lemma_some_alt_step(cs@, system_name(), i as int);
                lemma_some_alt_step(cs@, seq!['*'], i as int);
                lemma_some_alt_step(cs@, seq!['+'], i as int);
            }
            if i > 0 {
                text.push('|');
            }
            text.push('(');
            text.push('^');
            push_all(&mut text, &alt_text);
            text.push('$');
            text.push(')');
            proof {
                let xs = split_on(cs@, ',').map_values(|a: Seq<char>| alternative_regex(a));
                assert(split_on(cs@, ',').take(i + 1).map_values(|a: Seq<char>| alternative_regex(a))
                    =~= xs.take(i + 1));
                assert(split_on(cs@, ',').take(i as int).map_values(|a: Seq<char>| alternative_regex(a))
                    =~= xs.take(i as int));
                assert(xs.take(i + 1).drop_last() =~= xs.take(i as int));
                assert(xs[i as int] == alternative_regex(alt));
                assert(text@ =~= join(seq!['|'], xs.take(i + 1)));
            }
            i = i + 1;
        }
        proof {
            assert(split_on(cs@, ',').take(i as int) =~= split_on(cs@, ','));
        }
        let source = string_from_chars(&text);
        match regex_new(source.as_str()) {
            Some(regex) => {
                let pattern_text = string_from_chars(&cs);
                Ok(Pattern { regex, string: pattern_text, multiple, includes_system })
            },
            None => Err(string_from_chars(&vec!['i', 'n', 'v', 'a', 'l', 'i', 'd', ' ', 'p', 'a', 't', 't', 'e', 'r', 'n'])),
        }
    }
}

impl Pattern {
    pub fn matches(&self, string: &String) -> (r: bool)
        ensures
            r == self.accepts(string@),
    {
        self.matches_str(string.as_str())
    }

    pub fn matches_str(&self, string: &str) -> (r: bool)
        ensures
            r == self.accepts(string@),
    {
        if crate::text::is_system_name(string) {
            self.includes_system
        } else {
            regex_is_match(&self.regex, string)
        }
    }

    /// Whether the pattern has a `*` or `+` part, so that it may match more than one name.
    pub fn matches_multiple(&self) -> (r: bool)
        ensures
            r == self.spec_multiple(),
    {
        self.multiple
    }

    /// The pattern as it was written.
    pub fn as_text(&self) -> (r: &String)
        ensures
            r@ == self.text(),
    {
        &self.string
    }

    /// The text of the regular expression the pattern compiled to.
    pub fn regex_str(&self) -> (r: &str)
        ensures
            r@ == self.source(),
    {
        regex_as_str(&self.regex)
    }
}

impl Clone for Pattern {
    fn clone(&self) -> (r: Self)
        ensures
            r.text() == self.text(),
            r.source() == self.source(),
            r.spec_multiple() == self.spec_multiple(),
            r.spec_includes_system() == self.spec_includes_system(),
    {
        Pattern {
            regex: regex_clone(&self.regex),
            string: self.string.clone(),
            multiple: self.multiple,
            includes_system: self.includes_system,
        }
    }
}

/// The reserved object is matched by exactly the patterns that name it in a
/// part of their own: `*` and `+` never reach it.
pub proof fn law_system_opt_in(text: Seq<char>, p: Pattern)
    requires
        p.spec_includes_system() == has_part(text, system_name()),
    ensures
        p.accepts(system_name()) == has_part(text, system_name()),
{
}

proof fn lemma_some_alt_step(s: Seq<char>, part: Seq<char>, i: int)
    requires
        0 <= i < split_on(s, ',').len(),
    ensures
        some_alt_has(s, part, i + 1) == (some_alt_has(s, part, i) || alt_has(split_on(s, ',')[i], part)),
{
    if some_alt_has(s, part, i + 1) && !alt_has(split_on(s, ',')[i], part) {
        let a = choose|a: int| 0 <= a < i + 1 && #[trigger] alt_has(split_on(s, ',')[a], part);
        assert(a < i);
    }
}

/// Splits `cs` at each `sep`.
fn split_chars(cs: &Vec<char>, sep: char) -> (r: Vec<Vec<char>>)
    ensures
        r@.len() == split_on(cs@, sep).len(),
        forall|k: int| 0 <= k < r@.len() ==> #[trigger] r@[k]@ == split_on(cs@, sep)[k],
{
    let mut out: Vec<Vec<char>> = Vec::new();
    let mut cur: Vec<char> = Vec::new();
    let mut i: usize = 0;
    while i < cs.len()
        invariant
            i <= cs@.len(),
            out@.len() + 1 == split_on(cs@.take(i as int), sep).len(),
            forall|k: int| 0 <= k < out@.len() ==> #[trigger] out@[k]@ == split_on(cs@.take(i as int), sep)[k],
            cur@ == split_on(cs@.take(i as int), sep).last(),
        decreases cs@.len() - i,
    {
        assert(cs@.take(i + 1).drop_last() =~= cs@.take(i as int));
        assert(cs@.take(i + 1).last() == cs@[i as int]);
        let c = cs[i];
        if c == sep {
            out.push(cur);
            cur = Vec::new();
        } else {
            cur.push(c);
        }
        i = i + 1;
    }
    assert(cs@.take(i as int) =~= cs@);
    out.push(cur);
    out
}

} // verus!
