//! Name and documentation formatting.
use vstd::prelude::*;
use crate::text::{
    append_all, ascii_upper, is_ascii_letter, is_ascii_letter_char, lemma_split_on_nonempty, push_char,
    split_on, to_ascii_upper,
};

verus! {

/// The character that position `i` of `s` contributes to the upper camel
/// case form of `s`: an underscore contributes nothing, the first character
/// of each underscore-separated word contributes its ASCII upper-case form,
/// every other character contributes itself.
pub open spec fn camel_piece(s: Seq<char>, i: int) -> Seq<char> {
    if s[i] == '_' {
        seq![]
    } else if i == 0 || s[i - 1] == '_' {
        seq![ascii_upper(s[i])]
    } else {
        seq![s[i]]
    }
}

/// Upper camel case of the first `n` characters of `s`.
pub open spec fn upper_camel_prefix(s: Seq<char>, n: int) -> Seq<char>
    decreases n,
{
    if n <= 0 {
        seq![]
    } else {
        upper_camel_prefix(s, n - 1) + camel_piece(s, n - 1)
    }
}

/// Upper camel case of a snake case name.
pub open spec fn upper_camel(s: Seq<char>) -> Seq<char> {
    upper_camel_prefix(s, s.len() as int)
}

/// Converts `snake_case` to `UpperCamelCase`: the name is split at each
/// underscore and every word gets its first character in ASCII upper case.
pub fn snake_to_upper_camel(s: &str) -> (r: String)
    ensures
        r@ == upper_camel(s@),
{
    let n = s.unicode_len();
    let mut out = String::new();
    let mut i: usize = 0;
    let mut prev_underscore = true;
    while i < n
        invariant
            n == s@.len(),
            i <= n,
            out@ == upper_camel_prefix(s@, i as int),
            prev_underscore == (i == 0 || s@[i - 1] == '_'),
        decreases n - i,
    {
        let c = s.get_char(i);
        if c == '_' {
            prev_underscore = true;
        } else {
            if prev_underscore {
                push_char(&mut out, to_ascii_upper(c));
            } else {
                push_char(&mut out, c);
            }
            prev_underscore = false;
        }
        i = i + 1;
    }
    out
}

/// Whether `c` may start an identifier: an ASCII letter or an underscore.
pub open spec fn is_ident_start(c: char) -> bool {
    is_ascii_letter(c) || c == '_'
}

/// An enum entry name that can stand as an identifier: unchanged where it
/// starts with an ASCII letter or an underscore, else prefixed with `N`.
pub open spec fn sanitized_entry_name(name: Seq<char>) -> Seq<char> {
    if is_ident_start(name[0]) {
        name
    } else {
        "N"@ + name
    }
}

/// Makes an enum entry name usable as an identifier: a name that starts with
/// an ASCII letter or `_` is returned as it is, any other gets an `N` in front.
/// The name must not be empty.
pub fn sanitize_enum_entry_name(name: String) -> (r: String)
    requires
        name@.len() > 0,
    ensures
        r@ == sanitized_entry_name(name@),
{
    let first = name.as_str().get_char(0);
    if is_ascii_letter_char(first) || first == '_' {
        name
    } else {
        let mut out = String::from_str("N");
        out.append(name.as_str());
        out
    }
}

/// `text` with its first character in ASCII upper case.
pub open spec fn title_case(text: Seq<char>) -> Seq<char> {
    seq![ascii_upper(text[0])] + text.skip(1)
}

/// Whether `to_title` accepts `text`: it is not empty and its first
/// character is ASCII, so that it takes exactly one byte.
pub open spec fn titleable(text: Seq<char>) -> bool {
    text.len() > 0 && (text[0] as u32) < 128
}

/// Upper-cases the first character of `text` (ASCII only), keeping the rest.
/// The text must start with an ASCII character.
pub fn to_title(text: &String) -> (r: String)
    requires
        titleable(text@),
    ensures
        r@ == title_case(text@),
{
    let s = text.as_str();
    let n = s.unicode_len();
    let mut out = String::new();
    push_char(&mut out, to_ascii_upper(s.get_char(0)));
    let rest = s.substring_char(1, n);
    out.append(rest);
    assert(out@ =~= title_case(text@));
    out
}

/// `s` with every space that directly follows another space removed, so that
/// each run of spaces becomes a single space.
pub open spec fn collapse_spaces(s: Seq<char>) -> Seq<char>
    decreases s.len(),
{
    if s.len() == 0 {
        s
    } else if s.last() == ' ' && s.len() >= 2 && s[s.len() - 2] == ' ' {
        collapse_spaces(s.drop_last())
    } else {
        collapse_spaces(s.drop_last()).push(s.last())
    }
}

/// `s` with every tab removed.
pub open spec fn remove_tabs(s: Seq<char>) -> Seq<char>
    decreases s.len(),
{
    if s.len() == 0 {
        s
    } else if s.last() == '\t' {
        remove_tabs(s.drop_last())
    } else {
        remove_tabs(s.drop_last()).push(s.last())
    }
}

/// Documentation text as the generated code carries it: runs of spaces
/// collapsed to one space, then tabs removed.
pub open spec fn formatted_documentation(text: Seq<char>) -> Seq<char> {
    remove_tabs(collapse_spaces(text))
}

/// The regular expression that matches a run of two or more spaces.
pub open spec fn space_run_pattern() -> Seq<char> {
    " {2,}"@
}

/// `regex::Regex::new(pattern)` followed by `Regex::replace_all(text,
/// replacement)`. Claimed: for the pattern ` {2,}` (two or more spaces,
/// greedy, leftmost matches that do not overlap) and the replacement ` `
/// (no `$` group reference) the pattern compiles and every maximal run of two
/// or more spaces is replaced by one space, which leaves every run of spaces
/// a single space. For other patterns and replacements nothing is claimed.
#[verifier::external_body]
fn regex_replace_all(pattern: &str, text: &str, replacement: &str) -> (r: Option<String>)
    ensures
        pattern@ == space_run_pattern() && replacement@ == " "@ ==> (r is Some && r.unwrap()@
            == collapse_spaces(text@)),
{
    match regex::Regex::new(pattern) {
        Ok(re) => Some(re.replace_all(text, replacement).into_owned()),
        Err(_) => None,
    }
}

/// Why documentation could not be formatted.
#[derive(Debug, Clone, Copy, PartialEq, Eq, Structural)]
pub enum FormatError {
    /// The regular expression for runs of spaces was rejected.
    InvalidPattern,
}

/// `s` with its tabs removed.
fn without_tabs(s: &str) -> (r: String)
    ensures
        r@ == remove_tabs(s@),
{
    let n = s.unicode_len();
    let mut out = String::new();
    let mut i: usize = 0;
    while i < n
        invariant
            n == s@.len(),
            i <= n,
            out@ == remove_tabs(s@.take(i as int)),
        decreases n - i,
    {
        let c = s.get_char(i);
        assert(s@.take(i + 1).drop_last() =~= s@.take(i as int));
        if c != '\t' {
            push_char(&mut out, c);
        }
        i = i + 1;
    }
    assert(s@.take(n as int) =~= s@);
    out
}

/// Tidies documentation text: every run of two or more spaces becomes one
/// space, then all tabs are removed.
pub fn format_documentation(text: &str) -> (r: Result<String, FormatError>)
    ensures
        r matches Ok(s) && s@ == formatted_documentation(text@),
{
    let collapsed = match regex_replace_all(" {2,}", text, " ") {
        Some(c) => c,
        None => return Err(FormatError::InvalidPattern),
    };
    Ok(without_tabs(collapsed.as_str()))
}

/// Upper-casing an ASCII character twice is upper-casing it once, and it
/// never yields an underscore from anything else.
proof fn lemma_ascii_upper(c: char)
    ensures
        ascii_upper(ascii_upper(c)) == ascii_upper(c),
        c != '_' ==> ascii_upper(c) != '_',
{
}

/// The prefix form of `upper_camel` has no underscore, and where it is not
/// empty its first character is already upper case.
proof fn lemma_upper_camel_prefix(s: Seq<char>, n: int)
    requires
        0 <= n <= s.len(),
    ensures
        forall|k: int| 0 <= k < upper_camel_prefix(s, n).len() ==> upper_camel_prefix(s, n)[k] != '_',
        upper_camel_prefix(s, n).len() > 0 ==> ascii_upper(upper_camel_prefix(s, n)[0])
            == upper_camel_prefix(s, n)[0],
        upper_camel_prefix(s, n).len() == 0 && 0 < n ==> s[n - 1] == '_',
    decreases n,
{
    if n > 0 {
        lemma_upper_camel_prefix(s, n - 1);
        lemma_ascii_upper(s[n - 1]);
        let p = upper_camel_prefix(s, n - 1);
        let q = camel_piece(s, n - 1);
        assert(upper_camel_prefix(s, n) == p + q);
        assert forall|k: int| 0 <= k < (p + q).len() implies (p + q)[k] != '_' by {
            if k >= p.len() {
                assert((p + q)[k] == q[k - p.len()]);
            }
        }
        if p.len() == 0 && q.len() > 0 {
            assert(n - 1 == 0 || s[n - 2] == '_');
            assert((p + q)[0] == q[0]);
        } else if p.len() > 0 {
            assert((p + q)[0] == p[0]);
        }
    }
}

/// On a name without underscores, upper camel case only upper-cases the
/// first character.
proof fn lemma_upper_camel_no_underscore(t: Seq<char>, n: int)
    requires
        0 <= n <= t.len(),
        forall|k: int| 0 <= k < t.len() ==> t[k] != '_',
    ensures
        n > 0 ==> upper_camel_prefix(t, n) == seq![ascii_upper(t[0])] + t.subrange(1, n),
        n == 0 ==> upper_camel_prefix(t, n).len() == 0,
    decreases n,
{
    if n > 1 {
        lemma_upper_camel_no_underscore(t, n - 1);
        assert(seq![ascii_upper(t[0])] + t.subrange(1, n - 1) + seq![t[n - 1]] =~= seq![
            ascii_upper(t[0]),
        ] + t.subrange(1, n));
    } else if n == 1 {
        assert(upper_camel_prefix(t, 0) =~= Seq::<char>::empty());
        assert(t.subrange(1, 1) =~= Seq::<char>::empty());
        assert(seq![ascii_upper(t[0])] + t.subrange(1, n) =~= seq![ascii_upper(t[0])]);
        assert(Seq::<char>::empty() + seq![ascii_upper(t[0])] =~= seq![ascii_upper(t[0])]);
    }
}

/// `snake_to_upper_camel` leaves no underscore in the name, and applying it
/// to its own result changes nothing.
pub proof fn lemma_upper_camel_laws(s: Seq<char>)
    ensures
        forall|k: int| 0 <= k < upper_camel(s).len() ==> upper_camel(s)[k] != '_',
        upper_camel(upper_camel(s)) == upper_camel(s),
{
    let u = upper_camel(s);
    lemma_upper_camel_prefix(s, s.len() as int);
    lemma_upper_camel_no_underscore(u, u.len() as int);
    if u.len() > 0 {
        assert(u =~= seq![u[0]] + u.subrange(1, u.len() as int));
    } else {
        assert(upper_camel(u) =~= u);
    }
}

/// A sanitized enum entry name starts with an ASCII letter or an underscore,
/// and sanitizing it again changes nothing.
pub proof fn lemma_sanitized_entry_name_laws(name: Seq<char>)
    requires
        name.len() > 0,
    ensures
        is_ident_start(sanitized_entry_name(name)[0]),
        sanitized_entry_name(sanitized_entry_name(name)) == sanitized_entry_name(name),
{
    reveal_strlit("N");
    if !is_ident_start(name[0]) {
        assert(("N"@ + name)[0] == 'N');
    }
}

/// Title case upper-cases only the first character, and applying it again
/// changes nothing.
pub proof fn lemma_title_case_laws(text: Seq<char>)
    requires
        text.len() > 0,
    ensures
        title_case(text).len() == text.len(),
        title_case(text).skip(1) == text.skip(1),
        title_case(title_case(text)) == title_case(text),
{
    lemma_ascii_upper(text[0]);
    let t = title_case(text);
    assert(t.skip(1) =~= text.skip(1));
    assert(t[0] == ascii_upper(text[0]));
    assert(title_case(t) =~= t);
}

/// Tab removal leaves no tab, and leaves a text without tabs as it is.
proof fn lemma_remove_tabs(s: Seq<char>)
    ensures
        forall|k: int| 0 <= k < remove_tabs(s).len() ==> remove_tabs(s)[k] != '\t',
        (forall|k: int| 0 <= k < s.len() ==> s[k] != '\t') ==> remove_tabs(s) == s,
    decreases s.len(),
{
    if s.len() > 0 {
        lemma_remove_tabs(s.drop_last());
        let r = remove_tabs(s.drop_last());
        assert forall|k: int| 0 <= k < remove_tabs(s).len() implies remove_tabs(s)[k] != '\t' by {
            if k < r.len() {
                assert(remove_tabs(s)[k] == r[k]);
            }
        }
        if forall|k: int| 0 <= k < s.len() ==> s[k] != '\t' {
            assert(forall|k: int|
                0 <= k < s.drop_last().len() ==> s.drop_last()[k] == s[k]);
            assert(s.drop_last().push(s.last()) =~= s);
        }
    }
}

/// Collapsing runs of spaces only drops characters: every character of the
/// result is one of the input; it leaves no two adjacent spaces; it ends
/// with the last character of the input; and a text without two adjacent
/// spaces is left as it is.
proof fn lemma_collapse_spaces(s: Seq<char>)
    ensures
        forall|k: int|
            0 <= k < collapse_spaces(s).len() ==> exists|j: int|
                0 <= j < s.len() && s[j] == #[trigger] collapse_spaces(s)[k],
        forall|k: int|
            0 <= k < collapse_spaces(s).len() - 1 ==> !(#[trigger] collapse_spaces(s)[k] == ' '
                && collapse_spaces(s)[k + 1] == ' '),
        collapse_spaces(s).len() > 0 <==> s.len() > 0,
        s.len() > 0 ==> collapse_spaces(s).last() == s.last(),
        (forall|k: int| 0 <= k < s.len() - 1 ==> !(#[trigger] s[k] == ' ' && s[k + 1] == ' '))
            ==> collapse_spaces(s) == s,
    decreases s.len(),
{
    if s.len() > 0 {
        let p = s.drop_last();
        lemma_collapse_spaces(p);
        let c = collapse_spaces(s);
        assert forall|k: int| 0 <= k < c.len() implies exists|j: int|
            0 <= j < s.len() && s[j] == #[trigger] c[k] by {
            if k < collapse_spaces(p).len() {
                let j = choose|j: int| 0 <= j < p.len() && p[j] == collapse_spaces(p)[k];
                assert(s[j] == c[k]);
            } else {
                assert(s[s.len() - 1] == c[k]);
            }
        }
        if (forall|k: int| 0 <= k < s.len() - 1 ==> !(#[trigger] s[k] == ' ' && s[k + 1] == ' ')) {
            assert(forall|k: int|
                0 <= k < p.len() - 1 ==> #[trigger] p[k] == s[k] && p[k + 1] == s[k + 1]);
            if s.len() >= 2 {
                assert(!(s[s.len() - 2] == ' ' && s[s.len() - 1] == ' '));
            }
            assert(p.push(s.last()) =~= s);
        }
    }
}

/// The formatted documentation holds no tab; for a text without tabs it
/// holds no two adjacent spaces either, and formatting it again changes
/// nothing.
pub proof fn lemma_formatted_documentation_laws(text: Seq<char>)
    ensures
        forall|k: int|
            0 <= k < formatted_documentation(text).len() ==> formatted_documentation(text)[k]
                != '\t',
        (forall|k: int| 0 <= k < text.len() ==> text[k] != '\t') ==> {
            &&& forall|k: int|
                0 <= k < formatted_documentation(text).len() - 1 ==> !(
                #[trigger] formatted_documentation(text)[k] == ' '
                    && formatted_documentation(text)[k + 1] == ' ')
            &&& formatted_documentation(formatted_documentation(text))
                == formatted_documentation(text)
        },
{
    let c = collapse_spaces(text);
    lemma_remove_tabs(c);
    lemma_collapse_spaces(text);
    if forall|k: int| 0 <= k < text.len() ==> text[k] != '\t' {
        assert forall|k: int| 0 <= k < c.len() implies c[k] != '\t' by {
            let j = choose|j: int| 0 <= j < text.len() && text[j] == c[k];
        }
        assert(remove_tabs(c) == c);
        lemma_collapse_spaces(c);
        assert(collapse_spaces(c) == c);
        lemma_remove_tabs(c);
    }
}

/// A word with its first character in ASCII upper case.
pub open spec fn capitalize(w: Seq<char>) -> Seq<char> {
    if w.len() == 0 {
        w
    } else {
        seq![ascii_upper(w[0])] + w.skip(1)
    }
}

/// Upper camel case by words: the name split at each underscore, every
/// word capitalized, the words joined.
pub open spec fn upper_camel_by_words(s: Seq<char>) -> Seq<char> {
    append_all(seq![], split_on(s, '_').map_values(|w: Seq<char>| capitalize(w)))
}

proof fn lemma_camel_words_prefix(s: Seq<char>, n: int)
    requires
        0 <= n <= s.len(),
    ensures
        upper_camel_prefix(s, n) == upper_camel_by_words(s.take(n)),
    decreases n,
{
    let t = s.take(n);
    if n == 0 {
        assert(t =~= Seq::<char>::empty());
        let m = split_on(t, '_').map_values(|w: Seq<char>| capitalize(w));
        assert(split_on(t, '_') == seq![Seq::<char>::empty()]);
        assert(m.len() == 1);
        assert(m.drop_last() =~= Seq::<Seq<char>>::empty());
        assert(m.last() =~= Seq::<char>::empty());
        assert(append_all(Seq::<char>::empty(), m.drop_last()) == Seq::<char>::empty());
        assert(upper_camel_by_words(t) =~= Seq::<char>::empty());
    } else {
        lemma_camel_words_prefix(s, n - 1);
        let tp = s.take(n - 1);
        assert(t.drop_last() =~= tp);
        let c = s[n - 1];
        assert(t.last() == c);
        lemma_split_on_nonempty(tp, '_');
        let wp = split_on(tp, '_');
        let w = wp.last();
        let mp = wp.map_values(|w: Seq<char>| capitalize(w));
        let m = split_on(t, '_').map_values(|w: Seq<char>| capitalize(w));
        let e: Seq<char> = seq![];
        if c == '_' {
            assert(split_on(t, '_') == wp.push(seq![]));
            assert(m.drop_last() =~= mp);
            assert(m.last() =~= Seq::<char>::empty());
            assert(upper_camel_by_words(t) =~= upper_camel_by_words(tp));
            assert(camel_piece(s, n - 1) =~= Seq::<char>::empty());
            assert(upper_camel_prefix(s, n) =~= upper_camel_prefix(s, n - 1));
        } else {
            assert(split_on(t, '_') == wp.update(wp.len() - 1, w.push(c)));
            assert(m.drop_last() =~= mp.drop_last());
            assert(m.last() == capitalize(w.push(c)));
            assert(mp.last() == capitalize(w));
            assert(upper_camel_by_words(t) == append_all(e, mp.drop_last()) + capitalize(w.push(c)));
            assert(upper_camel_by_words(tp) == append_all(e, mp.drop_last()) + capitalize(w));
            if tp.len() == 0 {
                assert(wp == seq![e]);
                assert(w.len() == 0);
            } else if tp.last() == '_' {
                assert(w.len() == 0);
            } else {
                lemma_split_on_nonempty(tp.drop_last(), '_');
                assert(w == split_on(tp.drop_last(), '_').last().push(tp.last()));
                assert(w.len() > 0);
            }
            if w.len() == 0 {
                assert(n - 1 == 0 || s[n - 2] == '_') by {
                    if n - 1 > 0 {
                        assert(tp.last() == s[n - 2]);
                    }
                }
                assert(capitalize(w.push(c)) =~= seq![ascii_upper(c)]);
                assert(capitalize(w) =~= e);
                assert(append_all(e, mp.drop_last()) + e =~= append_all(e, mp.drop_last()));
            } else {
                assert(tp.last() == s[n - 2]);
                assert(s[n - 2] != '_');
                assert(capitalize(w.push(c)) =~= capitalize(w).push(c));
                assert(append_all(e, mp.drop_last()) + capitalize(w).push(c) =~= (append_all(
                    e,
                    mp.drop_last(),
                ) + capitalize(w)) + seq![c]);
            }
        }
    }
}

/// `snake_to_upper_camel` is the name split at each underscore, every word
/// capitalized, and the words joined.
pub proof fn lemma_upper_camel_by_words(s: Seq<char>)
    ensures
        upper_camel(s) == upper_camel_by_words(s),
{
    lemma_camel_words_prefix(s, s.len() as int);
    assert(s.take(s.len() as int) =~= s);
}

} // verus!
