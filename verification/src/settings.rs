//! The language preference: its default and how the interface language is
//! chosen from it and from the locale of the environment.

use vstd::prelude::*;
use crate::text::{lowercase, string_of, chars_of, to_lowercase};

verus! {

/// The `language` value that asks for detection from the environment.
pub const LANGUAGE_AUTO: &'static str = "auto";

/// The default language preference: `auto`.
pub fn default_language() -> (s: String)
    ensures
        s@ == "auto"@,
{
    String::from_str(LANGUAGE_AUTO)
}

/// The interface languages offered explicitly: English and Spanish.
pub open spec fn supported_language(code: Seq<char>) -> bool {
    code == "en"@ || code == "es"@
}

/// Whether a language code is one the interface offers.
pub fn is_supported_language(code: &str) -> (b: bool)
    ensures
        b == supported_language(code@),
{
    proof {
        reveal_strlit("en");
        reveal_strlit("es");
    }
    if code.unicode_len() != 2 || code.get_char(0) != 'e' {
        return false;
    }
    let c = code.get_char(1);
    if c == 'n' {
        assert(code@ =~= "en"@);
        true
    } else if c == 's' {
        assert(code@ =~= "es"@);
        true
    } else {
        false
    }
}

/// The part of `s` before the first character satisfying `stop`.
pub open spec fn prefix_before(s: Seq<char>, stop: spec_fn(char) -> bool) -> Seq<char>
    decreases s.len(),
{
    if s.len() == 0 {
        Seq::empty()
    } else if stop(s[0]) {
        Seq::empty()
    } else {
        seq![s[0]] + prefix_before(s.drop_first(), stop)
    }
}

/// The language part of a locale name: what comes before the first `.` or
/// `@`, then before the first `_` (`es_ES.UTF-8` gives `es`).
pub open spec fn locale_lang(raw: Seq<char>) -> Seq<char> {
    prefix_before(prefix_before(raw, |c: char| c == '.' || c == '@'), |c: char| c == '_')
}

fn prefix_exec(v: &Vec<char>, stop_a: char, stop_b: char) -> (r: Vec<char>)
    ensures
        r@ == prefix_before(v@, |c: char| c == stop_a || c == stop_b),
{
    let ghost stop = |c: char| c == stop_a || c == stop_b;
    let mut i: usize = 0;
    while i < v.len() && v[i] != stop_a && v[i] != stop_b
        invariant
            i <= v.len(),
            forall|k: int| 0 <= k < i ==> #[trigger] v@[k] != stop_a && v@[k] != stop_b,
        decreases v.len() - i,
    {
        i = i + 1;
    }
    let mut r: Vec<char> = Vec::new();
    let mut j: usize = 0;
    while j < i
        invariant
            j <= i <= v.len(),
            r@ == v@.take(j as int),
        decreases i - j,
    {
        r.push(v[j]);
        j = j + 1;
        assert(r@ =~= v@.take(j as int));
    }
    proof {
        assert forall|k: int| 0 <= k < i implies !stop(#[trigger] v@[k]) by {
            assert(v@[k] != stop_a && v@[k] != stop_b);
        }
        lemma_prefix_before(v@, stop, i as int);
    }
    r
}

proof fn lemma_prefix_before(s: Seq<char>, stop: spec_fn(char) -> bool, i: int)
    requires
        0 <= i <= s.len(),
        forall|k: int| 0 <= k < i ==> !stop(#[trigger] s[k]),
        i == s.len() || stop(s[i]),
    ensures
        prefix_before(s, stop) == s.take(i),
    decreases s.len(),
{
    if s.len() > 0 && i > 0 {
        assert forall|k: int| 0 <= k < i - 1 implies !stop(#[trigger] s.drop_first()[k]) by {
            assert(s.drop_first()[k] == s[k + 1]);
        }
        lemma_prefix_before(s.drop_first(), stop, i - 1);
        assert(seq![s[0]] + s.drop_first().take(i - 1) =~= s.take(i));
    } else if s.len() > 0 {
        assert(s.take(0) =~= Seq::<char>::empty());
    } else {
        assert(s.take(i) =~= Seq::<char>::empty());
    }
}

/// The language part of a locale name such as `es_ES.UTF-8`.
pub fn locale_language(raw: &str) -> (r: String)
    ensures
        r@ == locale_lang(raw@),
{
    let v = chars_of(raw);
    let a = prefix_exec(&v, '.', '@');
    let b = prefix_exec(&a, '_', '_');
    proof {
        let f1 = |c: char| c == '.' || c == '@';
        let g1 = |c: char| c == '.' || c == '@';
        let f2 = |c: char| c == '_' || c == '_';
        let g2 = |c: char| c == '_';
        assert(f1 =~= g1);
        assert(f2 =~= g2);
    }
    string_of(&b)
}

/// The first value that is not empty.
pub open spec fn first_nonempty(vals: Seq<Seq<char>>) -> Option<Seq<char>>
    decreases vals.len(),
{
    if vals.len() == 0 {
        None
    } else if vals[0].len() > 0 {
        Some(vals[0])
    } else {
        first_nonempty(vals.drop_first())
    }
}

/// The language chosen from the preference and the lowercased language
/// part of the environment's locale, if one was found: a supported
/// preference wins, then a supported locale language, then English.
pub open spec fn chosen_language(pref: Seq<char>, detected: Option<Seq<char>>) -> Seq<char> {
    if supported_language(pref) {
        pref
    } else {
        match detected {
            Some(code) => if supported_language(code) { code } else { "en"@ },
            None => "en"@,
        }
    }
}

/// The interface language, from the preference and the locale language
/// already lowercased.
pub fn pick_language(pref: &str, detected: Option<&str>) -> (s: String)
    ensures
        s@ == chosen_language(pref@, match detected {
            Some(d) => Some(d@),
            None => None,
        }),
{
    if is_supported_language(pref) {
        return pref.to_string();
    }
    match detected {
        Some(code) => {
            if is_supported_language(code) {
                code.to_string()
            } else {
                String::from_str("en")
            }
        },
        None => String::from_str("en"),
    }
}

pub open spec fn strings_view(v: Seq<String>) -> Seq<Seq<char>> {
    Seq::new(v.len(), |i: int| v[i]@)
}

/// The interface language. `pref` is the stored preference (`en`, `es`, or
/// anything else for detection); `env` holds, in order, the values of
/// `LC_ALL`, `LC_MESSAGES` and `LANG` that are set. The first non-empty one
/// gives the locale whose lowercased language part is used if supported;
/// English is the fallback.
pub fn resolve_language(pref: &str, env: &Vec<String>) -> (s: String)
    ensures
        s@ == chosen_language(pref@, match first_nonempty(strings_view(env@)) {
            Some(raw) => Some(lowercase(locale_lang(raw))),
            None => None,
        }),
{
    let ghost vals = strings_view(env@);
    let mut i: usize = 0;
    assert(vals.skip(0) =~= vals);
    while i < env.len() && env[i].as_str().unicode_len() == 0
        invariant
            i <= env.len(),
            vals == strings_view(env@),
            first_nonempty(vals) == first_nonempty(vals.skip(i as int)),
        decreases env.len() - i,
    {
        assert(vals.skip(i as int).drop_first() =~= vals.skip(i + 1));
        i = i + 1;
    }
    if i == env.len() {
        assert(vals.skip(i as int).len() == 0);
        return pick_language(pref, None);
    }
    assert(vals.skip(i as int)[0] == env@[i as int]@);
    let lang = locale_language(env[i].as_str());
    let lower = to_lowercase(lang.as_str());
    pick_language(pref, Some(lower.as_str()))
}

} // verus!
