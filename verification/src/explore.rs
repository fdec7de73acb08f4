//! Text for the file explorer page.

use vstd::prelude::*;
use vstd::std_specs::iter::IteratorSpec;
use vstd::string::StringExecFns;
use crate::state::{QueryFile, clone_headers};

verus! {

/// Appends one character to a string (`String::push`).
#[verifier::external_body]
fn push_char(s: &mut String, c: char)
    ensures
        final(s)@ == old(s)@.push(c),
{
    s.push(c);
}

/// The text that stands for one character of JSON embedded in an HTML script:
/// `&`, `<`, `>`, U+2028 and U+2029 become `\u` escapes, other characters stay.
pub open spec fn escape_char(c: char) -> Seq<char> {
    if c == '&' {
        seq!['\\', 'u', '0', '0', '2', '6']
    } else if c == '<' {
        seq!['\\', 'u', '0', '0', '3', 'c']
    } else if c == '>' {
        seq!['\\', 'u', '0', '0', '3', 'e']
    } else if c == '\u{2028}' {
        seq!['\\', 'u', '2', '0', '2', '8']
    } else if c == '\u{2029}' {
        seq!['\\', 'u', '2', '0', '2', '9']
    } else {
        seq![c]
    }
}

/// JSON text with every character escaped as `escape_char` says.
pub open spec fn escape_json(s: Seq<char>) -> Seq<char>
    decreases s.len(),
{
    if s.len() == 0 {
        Seq::empty()
    } else {
        escape_json(s.drop_last()) + escape_char(s.last())
    }
}

/// A character that could end a script element or start markup inside one.
pub open spec fn breaks_script(c: char) -> bool {
    c == '&' || c == '<' || c == '>' || c == '\u{2028}' || c == '\u{2029}'
}

fn push_escaped(out: &mut String, c: char)
    ensures
        final(out)@ == old(out)@ + escape_char(c),
{
    if c == '&' {
        push_char(out, '\\');
        push_char(out, 'u');
        push_char(out, '0');
        push_char(out, '0');
        push_char(out, '2');
        push_char(out, '6');
    } else if c == '<' {
        push_char(out, '\\');
        push_char(out, 'u');
        push_char(out, '0');
        push_char(out, '0');
        push_char(out, '3');
        push_char(out, 'c');
    } else if c == '>' {
        push_char(out, '\\');
        push_char(out, 'u');
        push_char(out, '0');
        push_char(out, '0');
        push_char(out, '3');
        push_char(out, 'e');
    } else if c == '\u{2028}' {
        push_char(out, '\\');
        push_char(out, 'u');
        push_char(out, '2');
        push_char(out, '0');
        push_char(out, '2');
        push_char(out, '8');
    } else if c == '\u{2029}' {
        push_char(out, '\\');
        push_char(out, 'u');
        push_char(out, '2');
        push_char(out, '0');
        push_char(out, '2');
        push_char(out, '9');
    } else {
        push_char(out, c);
    }
    assert(final(out)@ =~= old(out)@ + escape_char(c));
}

/// Escapes JSON text so that it can stand inside an HTML script element.
pub fn escape_json_for_script(json: &str) -> (r: String)
    ensures
        r@ == escape_json(json@),
{
    broadcast use vstd::string::group_string_axioms;

    let mut out = String::new();
    let mut it = json.chars();
    let ghost mut done: Seq<char> = Seq::empty();
    loop
        invariant
            it.obeys_prophetic_iter_laws(),
            json@ == done + it.remaining(),
            out@ == escape_json(done),
            it.decrease() is Some,
        ensures
            out@ == escape_json(json@),
        decreases it.decrease()->0,
    {
        let ghost before = it;
        match it.next() {
            Some(c) => {
                proof {
                    assert(before.remaining().len() > 0);
                    assert(done.push(c) + it.remaining() =~= done + before.remaining());
                    assert(done.push(c).drop_last() =~= done);
                    done = done.push(c);
                }
                push_escaped(&mut out, c);
            },
            None => {
                proof {
                    assert(done =~= json@);
                }
                break;
            },
        }
    }
    out
}

} // verus!

verus! {

/// Escaped JSON holds none of the characters that could end the script
/// element it is embedded in or start markup.
pub proof fn lemma_escaped_is_safe(s: Seq<char>)
    ensures
        forall|i: int| 0 <= i < escape_json(s).len() ==> !breaks_script(#[trigger] escape_json(s)[i]),
    decreases s.len(),
{
    if s.len() > 0 {
        lemma_escaped_is_safe(s.drop_last());
        let a = escape_json(s.drop_last());
        let b = escape_char(s.last());
        assert forall|i: int| 0 <= i < escape_json(s).len() implies !breaks_script(
            #[trigger] escape_json(s)[i],
        ) by {
            if i >= a.len() {
                assert(escape_json(s)[i] == b[i - a.len()]);
            } else {
                assert(escape_json(s)[i] == a[i]);
            }
        }
    }
}

} // verus!

verus! {

/// `s` from position `i` on, with every non-overlapping occurrence of `pat`,
/// found from the left, replaced by `rep` (the rule of `str::replace`).
pub open spec fn replace_from(s: Seq<char>, pat: Seq<char>, rep: Seq<char>, i: int) -> Seq<char>
    decreases s.len() - i,
{
    if i >= s.len() || i < 0 {
        Seq::empty()
    } else if pat.len() > 0 && i + pat.len() <= s.len() && s.subrange(i, i + pat.len()) == pat {
        rep + replace_from(s, pat, rep, i + pat.len())
    } else {
        seq![s[i]] + replace_from(s, pat, rep, i + 1)
    }
}

/// `s` with every non-overlapping occurrence of `pat`, found from the left,
/// replaced by `rep`.
pub open spec fn replace_all(s: Seq<char>, pat: Seq<char>, rep: Seq<char>) -> Seq<char> {
    replace_from(s, pat, rep, 0)
}

/// The characters of a text.
fn chars_of(s: &str) -> (v: Vec<char>)
    ensures
        v@ == s@,
{
    broadcast use vstd::string::group_string_axioms;

    let mut v: Vec<char> = Vec::new();
    let mut it = s.chars();
    loop
        invariant
            it.obeys_prophetic_iter_laws(),
            s@ == v@ + it.remaining(),
            it.decrease() is Some,
        ensures
            v@ == s@,
        decreases it.decrease()->0,
    {
        let ghost before = it;
        match it.next() {
            Some(c) => {
                proof {
                    assert(before.remaining().len() > 0);
                    assert(v@.push(c) + it.remaining() =~= v@ + before.remaining());
                }
                v.push(c);
            },
            None => {
                proof {
                    assert(v@ =~= s@);
                }
                break;
            },
        }
    }
    v
}

/// Whether `pat` occurs in `s` at position `i`.
fn occurs_at(s: &Vec<char>, pat: &Vec<char>, i: usize) -> (r: bool)
    requires
        i <= s@.len(),
    ensures
        r == (i + pat@.len() <= s@.len() && s@.subrange(i as int, i + pat@.len()) == pat@),
{
    if pat.len() > s.len() - i {
        return false;
    }
    let n = s.len();
    let mut j: usize = 0;
    while j < pat.len()
        invariant
            n == s@.len(),
            i + pat@.len() <= s@.len(),
            j <= pat@.len(),
            forall|k: int| 0 <= k < j ==> s@[i + k] == pat@[k],
        decreases pat@.len() - j,
    {
        if s[i + j] != pat[j] {
            assert(s@.subrange(i as int, i + pat@.len())[j as int] != pat@[j as int]);
            return false;
        }
        j = j + 1;
    }
    assert(s@.subrange(i as int, i + pat@.len()) =~= pat@);
    true
}

/// Replaces every non-overlapping occurrence of a non-empty `pat` in `s`,
/// found from the left, by `rep`.
pub fn replace_text(s: &str, pat: &str, rep: &str) -> (r: String)
    requires
        pat@.len() > 0,
    ensures
        r@ == replace_all(s@, pat@, rep@),
{
    let sc = chars_of(s);
    let pc = chars_of(pat);
    let mut out = String::new();
    let mut i: usize = 0;
    while i < sc.len()
        invariant
            sc@ == s@,
            pc@ == pat@,
            pc@.len() > 0,
            i <= sc@.len(),
            out@ + replace_from(s@, pat@, rep@, i as int) == replace_all(s@, pat@, rep@),
        decreases sc@.len() - i,
    {
        if occurs_at(&sc, &pc, i) {
            let ghost before = out@;
            out.append(rep);
            proof {
                assert(out@ + replace_from(s@, pat@, rep@, i + pc@.len()) =~= before + replace_from(
                    s@,
                    pat@,
                    rep@,
                    i as int,
                ));
            }
            i = i + pc.len();
        } else {
            let ghost before = out@;
            push_char(&mut out, sc[i]);
            proof {
                assert(out@ + replace_from(s@, pat@, rep@, i + 1) =~= before + replace_from(
                    s@,
                    pat@,
                    rep@,
                    i as int,
                ));
            }
            i = i + 1;
        }
    }
    assert(replace_from(s@, pat@, rep@, i as int) =~= Seq::<char>::empty());
    assert(out@ =~= replace_all(s@, pat@, rep@));
    out
}

/// The marker in the page template where the style sheet goes.
pub open spec fn css_marker() -> Seq<char> {
    "/* CSS */"@
}

/// The line of the page template where the file list goes.
pub open spec fn files_marker() -> Seq<char> {
    "const _files = [];"@
}

/// The explorer page: the template with the style sheet in place of its
/// marker, then the escaped file list in place of the empty one.
pub open spec fn explore_page_text(html: Seq<char>, css: Seq<char>, files_json: Seq<char>) -> Seq<
    char,
> {
    replace_all(
        replace_all(html, css_marker(), css),
        files_marker(),
        "const _files = "@ + escape_json(files_json) + ";"@,
    )
}

/// Fills the explorer page template with its style sheet and the JSON list
/// of files, escaped for a script element.
pub fn explore_page(html: &str, css: &str, files_json: &str) -> (page: String)
    ensures
        page@ == explore_page_text(html@, css@, files_json@),
{
    broadcast use vstd::string::group_string_axioms;

    proof {
        reveal_strlit("/* CSS */");
        reveal_strlit("const _files = [];");
    }
    let with_css = replace_text(html, "/* CSS */", css);
    let json = escape_json_for_script(files_json);
    let mut line = String::from_str("const _files = ");
    line.append(json.as_str());
    line.append(";");
    replace_text(with_css.as_str(), "const _files = [];", line.as_str())
}

} // verus!

verus! {

/// Nanoseconds to whole milliseconds, rounding toward zero.
pub open spec fn millis(nanos: i128) -> int {
    if nanos >= 0 {
        nanos / 1000000
    } else {
        -((-nanos) / 1000000)
    }
}

fn to_millis(nanos: i128) -> (r: i128)
    ensures
        r == millis(nanos),
{
    nanos / 1000000
}

/// A file as the explorer page lists it.
pub struct ExploreEntry {
    pub path: String,
    pub size: u64,
    pub headers: Vec<(String, String)>,
    /// When the path was first published, in milliseconds.
    pub created: i128,
    /// When the path was last published, in milliseconds.
    pub modified: i128,
    /// The content digest in lower-case hexadecimal.
    pub hash: String,
}

/// The entry of the explorer page for a listed file.
pub open spec fn entry_of(q: QueryFile, e: ExploreEntry) -> bool {
    &&& e.path@ == q.path@
    &&& e.size == q.size
    &&& e.headers@ == q.headers@
    &&& e.created == millis(q.created)
    &&& e.modified == millis(q.modified)
    &&& e.hash@ == q.hash@
}

/// The explorer page's entries for a file listing: the same files in the
/// same order, with their times in milliseconds.
pub fn explore_entries(files: &Vec<QueryFile>) -> (r: Vec<ExploreEntry>)
    ensures
        r@.len() == files@.len(),
        forall|i: int| 0 <= i < files@.len() ==> entry_of(files@[i], #[trigger] r@[i]),
{
    let mut r: Vec<ExploreEntry> = Vec::new();
    let mut i: usize = 0;
    while i < files.len()
        invariant
            i <= files@.len(),
            r@.len() == i,
            forall|j: int| 0 <= j < i ==> entry_of(files@[j], #[trigger] r@[j]),
        decreases files@.len() - i,
    {
        let f = &files[i];
        r.push(
            ExploreEntry {
                path: f.path.clone(),
                size: f.size,
                headers: clone_headers(&f.headers),
                created: to_millis(f.created),
                modified: to_millis(f.modified),
                hash: f.hash.clone(),
            },
        );
        i = i + 1;
    }
    r
}

} // verus!

verus! {

/// Escaping leaves every character other than `&`, `<`, `>`, U+2028 and
/// U+2029 as it is: text without them comes out unchanged.
pub proof fn lemma_escape_keeps_other_text(s: Seq<char>)
    requires
        forall|i: int|
            0 <= i < s.len() ==> #[trigger] s[i] != '&' && s[i] != '<' && s[i] != '>' && s[i]
                != '\u{2028}' && s[i] != '\u{2029}',
    ensures
        escape_json(s) == s,
    decreases s.len(),
{
    if s.len() > 0 {
        lemma_escape_keeps_other_text(s.drop_last());
        assert(s.last() == s[s.len() - 1]);
        assert(escape_char(s.last()) == seq![s.last()]);
        assert(s.drop_last().push(s.last()) =~= s);
    }
}

/// Escaping works character by character: the escape of two texts put
/// together is their escapes put together.
pub proof fn lemma_escape_concat(a: Seq<char>, b: Seq<char>)
    ensures
        escape_json(a + b) == escape_json(a) + escape_json(b),
    decreases b.len(),
{
    if b.len() == 0 {
        assert(a + b =~= a);
        assert(escape_json(a) + escape_json(b) =~= escape_json(a));
    } else {
        lemma_escape_concat(a, b.drop_last());
        assert((a + b).drop_last() =~= a + b.drop_last());
        assert((a + b).last() == b.last());
        assert(escape_json(a + b) =~= escape_json(a) + escape_json(b));
    }
}

/// Each of the five characters that could break out of the script becomes
/// the JSON escape `\u` followed by the four hexadecimal digits of its code
/// point, which stands for the same character in a JSON string.
pub proof fn lemma_escape_of_breaking_characters()
    ensures
        escape_char('&') == seq!['\\', 'u', '0', '0', '2', '6'],
        escape_char('<') == seq!['\\', 'u', '0', '0', '3', 'c'],
        escape_char('>') == seq!['\\', 'u', '0', '0', '3', 'e'],
        escape_char('\u{2028}') == seq!['\\', 'u', '2', '0', '2', '8'],
        escape_char('\u{2029}') == seq!['\\', 'u', '2', '0', '2', '9'],
        '&' as u32 == 0x26,
        '<' as u32 == 0x3c,
        '>' as u32 == 0x3e,
        '\u{2028}' as u32 == 0x2028,
        '\u{2029}' as u32 == 0x2029,
{
}

} // verus!
