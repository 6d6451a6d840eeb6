use vstd::prelude::*;

verus! {

/// Views of each string.
pub open spec fn views(v: Seq<String>) -> Seq<Seq<char>> {
    v.map_values(|s: String| s@)
}

/// Characters with the Unicode `White_Space` property.
pub open spec fn is_white_space(c: char) -> bool {
    let v = c as u32;
    (0x9 <= v <= 0xD) || v == 0x20 || v == 0x85 || v == 0xA0 || v == 0x1680 || (0x2000 <= v
        <= 0x200A) || v == 0x2028 || v == 0x2029 || v == 0x202F || v == 0x205F || v == 0x3000
}

/// `s` without its trailing white space.
pub open spec fn trim_end(s: Seq<char>) -> Seq<char>
    decreases s.len(),
{
    if s.len() > 0 && is_white_space(s.last()) {
        trim_end(s.drop_last())
    } else {
        s
    }
}

/// Relies on `str::trim_end`: the string with trailing characters of the
/// Unicode `White_Space` property removed.
#[verifier::external_body]
pub(crate) fn trim_end_of(s: &str) -> (r: String)
    ensures
        r@ == trim_end(s@),
{
    s.trim_end().to_string()
}

/// Relies on `String::push_str`: appends the characters of `t`.
#[verifier::external_body]
pub(crate) fn push_str(s: &mut String, t: &str)
    ensures
        final(s)@ == old(s)@ + t@,
{
    s.push_str(t)
}

/// What each capture group held, as views.
pub open spec fn opt_views(v: Seq<Option<String>>) -> Seq<Option<Seq<char>>> {
    v.map_values(
        |o: Option<String>|
            match o {
                Some(s) => Some(s@),
                None => None,
            },
    )
}

/// The first capture group of each successive non-overlapping match of the
/// regular expression `pattern` in `text`; `None` when `pattern` does not
/// compile.
pub uninterp spec fn regex_first_groups(pattern: Seq<char>, text: Seq<char>) -> Option<Seq<Option<Seq<char>>>>;

/// Relies on `lazy_regex::Regex::new` (the `regex` crate's `Regex`) to
/// compile `pattern`, and on `Regex::captures_iter` for the matches in order,
/// each reduced to its first group.
#[verifier::external_body]
pub(crate) fn first_group_captures(pattern: &str, text: &str) -> (r: Option<Vec<Option<String>>>)
    ensures
        regex_first_groups(pattern@, text@) == match r {
            Some(v) => Some(opt_views(v@)),
            None => None,
        },
{
    lazy_regex::Regex::new(pattern).ok().map(
        |re| re.captures_iter(text).map(|c| c.get(1).map(|m| m.as_str().to_string())).collect(),
    )
}

/// The pieces of `s` between occurrences of `sep`, leftmost first and
/// not overlapping, as `str::split` gives them for a non-empty pattern.
pub open spec fn split_by(s: Seq<char>, sep: Seq<char>) -> Seq<Seq<char>>
    decreases s.len(),
{
    if s.len() == 0 {
        seq![Seq::empty()]
    } else if sep.len() > 0 && s.len() >= sep.len() && s.take(sep.len() as int) == sep {
        seq![Seq::empty()] + split_by(s.skip(sep.len() as int), sep)
    } else {
        let p = split_by(s.drop_first(), sep);
        p.update(0, seq![s[0]] + p[0])
    }
}

/// Relies on `str::split` with a non-empty `&str` pattern: the pieces
/// between its occurrences, in order, empty ones included.
#[verifier::external_body]
pub(crate) fn split_by_of(s: &str, sep: &str) -> (r: Vec<String>)
    requires
        sep@.len() > 0,
    ensures
        views(r@) == split_by(s@, sep@),
{
    s.split(sep).map(|l| l.to_string()).collect()
}

} // verus!
